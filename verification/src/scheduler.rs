//! Runs the edges of a build in order: tells which edge to look at next, and keeps
//! track of what becomes of it.
use crate::board;
use crate::board::Board;
use crate::board::Control;
use crate::board::Course;
use crate::board::Field;
use crate::board::Limits;
use crate::board::Offer;
use crate::board::Phase;
use crate::board::Step;
use crate::closure;
use crate::closure::Graph;
use crate::closure::GraphView;
use crate::collections::map_get;
use crate::collections::map_insert;
use crate::collections::map_new;
use crate::links;
use crate::links::list_members;
use crate::links::Links;
use crate::manifest::Edge;
use crate::manifest::Manifest;
use crate::manifest::ManifestView;
use crate::pools;
use crate::pools::limited_pool;
use crate::pools::pool_limit;
use crate::pools::release_pool_edge;
use crate::pools::reserve_new_pool_edges;
use crate::pools::Places;
use crate::queue;
use crate::queue::Queue;
use crate::run_laws;
use crate::soundness;
use crate::text;
use crate::text::holds;
use crate::text::same_str;
use rapidhash::RapidHashMap;
use vstd::prelude::*;
use vstd::string::*;

verus! {

/// A build in progress.
pub struct Scheduler<'a> {
    manifest: &'a Manifest,
    windows: bool,
    dependents: Vec<Vec<usize>>,
    weights: Vec<usize>,
    pools: Vec<String>,
    limits: Limits,
    phase: Vec<Phase>,
    pending: Vec<usize>,
    failed: Vec<bool>,
    broken: Vec<bool>,
    fresh: Vec<usize>,
    reserved: Vec<bool>,
    usage: RapidHashMap<String, usize>,
    plan: Option<Vec<bool>>,
    ready: Queue,
    waiting: Vec<Queue>,
    unfinished: usize,
    control: Control,
}

pub open spec fn optional_list(list: Option<Vec<bool>>) -> Option<Seq<bool>> {
    match list {
        Some(list) => Some(list@),
        None => None,
    }
}

impl<'a> Scheduler<'a> {
    /// What stays the same during the build.
    pub closed spec fn field(&self) -> Field {
        Field {
            m: self.manifest.deep_view(),
            windows: self.windows,
            told: links::lists(self.dependents@),
            weights: self.weights@,
            pools: text::strings(self.pools@),
        }
    }

    pub closed spec fn limits(&self) -> Limits {
        self.limits
    }

    /// How far the build has come.
    pub closed spec fn board(&self) -> Board {
        Board {
            phase: self.phase@,
            pending: self.pending@,
            failed: self.failed@,
            broken: self.broken@,
            fresh: self.fresh@,
            places: Places { reserved: self.reserved@, usage: self.usage.deep_view() },
            plan: optional_list(self.plan),
        }
    }

    pub closed spec fn control(&self) -> Control {
        self.control
    }

    pub open spec fn course(&self) -> Course {
        Course { board: self.board(), control: self.control() }
    }

    /// Whether the queues hold the edges that are ready, but for those of `out`, and
    /// those that wait for places.
    spec fn is_kept(&self, out: Set<usize>) -> bool {
        let f = self.field();
        let b = self.board();
        &&& soundness::is_field(f)
        &&& soundness::is_sound(f, b)
        &&& self.ready.well_formed(self.weights@)
        &&& self.ready@ == board::doing(b, Phase::Ready).difference(out)
        &&& forall|k: usize| #[trigger]
            out.contains(k) ==> k < b.phase.len() && b.phase[k as int] != Phase::Blocked
        &&& self.waiting@.len() == self.pools@.len()
        &&& forall|i: int|
            0 <= i < self.waiting@.len() ==> (#[trigger] self.waiting@[i]).well_formed(
                self.weights@,
            ) && self.waiting@[i]@ == board::waiting(f, b, self.pools@[i]@)
        &&& self.unfinished == board::remaining(b.phase, b.phase.len() as int)
    }

    /// What holds between the steps of a build.
    pub closed spec fn well_formed(&self) -> bool {
        &&& self.is_kept(Set::empty())
        &&& self.control.running == board::running(self.phase@, self.phase@.len() as int)
    }

    fn finish(&mut self, k: usize, ok: bool, Ghost(out): Ghost<Set<usize>>)
        requires
            old(self).is_kept(out),
            k < old(self).phase@.len(),
            soundness::is_free(old(self).phase@[k as int]),
            old(self).phase@[k as int] != Phase::Parked,
            old(self).phase@[k as int] == Phase::Ready ==> out.contains(k),
        ensures
            final(self).is_kept(out),
            final(self).field() == old(self).field(),
            final(self).limits() == old(self).limits(),
            final(self).control() == old(self).control(),
            final(self).board() == board::finished(old(self).field(), old(self).board(), k, ok),
    {
        let ghost f = self.field();
        let ghost b = self.board();
        let ghost start = *self;
        proof {
            soundness::lemma_finished_is_sound(f, b, k, ok);
            assert(f.told[k as int] == self.dependents@[k as int]@);
        }
        self.phase.set(k, Phase::Finished);
        self.broken.set(k, !ok);
        let n: usize = self.dependents[k].len();
        let mut i: usize = 0;
        proof {
            assert(f.told[k as int].take(0) =~= seq![]);
            assert(self.board() =~= board::finished_to(f, b, k, ok, 0));
            assert(self.ready@ =~= board::doing(self.board(), Phase::Ready).difference(out));
        }
        while i < n
            invariant
                f == start.field(),
                b == start.board(),
                start.is_kept(out),
                soundness::is_field(f),
                soundness::is_sound(f, b),
                self.field() == f,
                self.limits == start.limits,
                self.control == start.control,
                self.weights == start.weights,
                self.pools == start.pools,
                self.dependents == start.dependents,
                self.waiting == start.waiting,
                self.unfinished == start.unfinished,
                k < b.phase.len(),
                b.phase[k as int] != Phase::Finished,
                f.told[k as int] == self.dependents@[k as int]@,
                n == f.told[k as int].len(),
                i <= n,
                self.board() == board::finished_to(f, b, k, ok, i as int),
                self.ready.well_formed(self.weights@),
                self.ready@ == board::doing(self.board(), Phase::Ready).difference(out),
                b.phase[k as int] == Phase::Ready ==> out.contains(k),
                forall|x: usize| #[trigger] out.contains(x) ==> x < b.phase.len()
                    && b.phase[x as int] != Phase::Blocked,
            decreases n - i,
        {
            let d: usize = self.dependents[k][i];
            let ghost before = self.board();
            let ghost told = f.told[k as int];
            proof {
                soundness::lemma_told_is_blocked(f, b, k, i as int);
                assert(told.take(i + 1) =~= told.take(i as int).push(d));
                assert(!told.take(i as int).contains(d)) by {
                    if told.take(i as int).contains(d) {
                        let x = choose|x: int|
                            0 <= x < i && told.take(i as int)[x] == d;
                        assert(told[x] == told[i as int]);
                    }
                }
                assert forall|x: usize| #[trigger] told.take(i + 1).contains(x) <==> told.take(
                    i as int,
                ).contains(x) || x == d by {
                    soundness::lemma_push_contains(told.take(i as int), d, x);
                }
            }
            if !ok {
                self.failed.set(d, true);
            }
            let left: usize = self.pending[d] - 1;
            self.pending.set(d, left);
            if left == 0 {
                self.phase.set(d, Phase::Ready);
                self.ready.push(self.weights.as_slice(), d);
                self.fresh.push(d);
            }
            proof {
                let after = board::finished_to(f, b, k, ok, i + 1);
                assert(self.phase@ =~= after.phase);
                assert(self.pending@ =~= after.pending);
                assert(self.failed@ =~= after.failed);
                assert(self.fresh@ =~= after.fresh);
                assert(self.board() =~= after);
                assert(self.ready@ =~= board::doing(self.board(), Phase::Ready).difference(out));
            }
            i += 1;
        }
        self.unfinished -= 1;
        proof {
            let r = self.board();
            assert forall|x: int| 0 <= x < self.waiting@.len() implies (
            #[trigger] self.waiting@[x]).well_formed(self.weights@) && self.waiting@[x]@
                == board::waiting(f, r, self.pools@[x]@) by {
                assert(start.waiting@[x]@ == board::waiting(f, b, start.pools@[x]@));
                assert forall|m: int| 0 <= m < b.phase.len() implies (#[trigger] r.phase[m]
                    == Phase::Parked <==> b.phase[m] == Phase::Parked) by {
                    if f.told[k as int].take(n as int).contains(m as usize) {
                        let y = choose|y: int|
                            0 <= y < n && f.told[k as int].take(n as int)[y] == m as usize;
                        soundness::lemma_told_is_blocked(f, b, k, y);
                    }
                }
                assert(board::waiting(f, r, self.pools@[x]@) =~= board::waiting(
                    f,
                    b,
                    self.pools@[x]@,
                ));
            }
        }
    }

    /// Gives places to edges that have become ready.
    fn reserve(&mut self, Ghost(out): Ghost<Set<usize>>)
        requires
            old(self).is_kept(out),
            old(self).board().plan is Some,
        ensures
            final(self).is_kept(out),
            final(self).field() == old(self).field(),
            final(self).limits() == old(self).limits(),
            final(self).control() == old(self).control(),
            final(self).board() == board::reserved(old(self).field(), old(self).board()),
    {
        let ghost f = self.field();
        let ghost b = self.board();
        proof {
            soundness::lemma_places_are_sound(f, b, 0);
            assert(f.m.edges.len() == self.manifest.edges@.len());
        }
        if let Some(plan) = &self.plan {
            reserve_new_pool_edges(
                self.manifest,
                self.windows,
                self.fresh.as_slice(),
                &mut self.reserved,
                &mut self.usage,
                plan.as_slice(),
            );
        }
        self.fresh = Vec::new();
        proof {
            assert(self.fresh@ =~= seq![]);
            assert(self.board() =~= board::reserved(f, b));
            lemma_same_phases(f, b, self.board(), self.pools@);
        }
    }

    /// Takes the place of an edge away.
    fn release(&mut self, k: usize, Ghost(out): Ghost<Set<usize>>)
        requires
            old(self).is_kept(out),
            k < old(self).phase@.len(),
        ensures
            final(self).is_kept(out),
            final(self).field() == old(self).field(),
            final(self).limits() == old(self).limits(),
            final(self).control() == old(self).control(),
            final(self).board() == board::released(old(self).field(), old(self).board(), k),
    {
        let ghost f = self.field();
        let ghost b = self.board();
        proof {
            soundness::lemma_places_are_sound(f, b, k);
            assert(f.m.edges.len() == self.manifest.edges@.len());
        }
        release_pool_edge(
            self.manifest,
            self.windows,
            k,
            &mut self.reserved,
            &mut self.usage,
        );
        proof {
            assert(self.board() =~= board::released(f, b, k));
            lemma_same_phases(f, b, self.board(), self.pools@);
        }
    }
}

/// Boards on which edges do the same have the same edges waiting.
proof fn lemma_same_phases(f: Field, b: Board, r: Board, pools: Seq<String>)
    requires
        r.phase == b.phase,
    ensures
        board::doing(r, Phase::Ready) == board::doing(b, Phase::Ready),
        forall|i: int|
            0 <= i < pools.len() ==> board::waiting(f, r, #[trigger] pools[i]@) == board::waiting(
                f,
                b,
                pools[i]@,
            ),
{
    assert(board::doing(r, Phase::Ready) =~= board::doing(b, Phase::Ready));
    assert forall|i: int| 0 <= i < pools.len() implies board::waiting(
        f,
        r,
        #[trigger] pools[i]@,
    ) == board::waiting(f, b, pools[i]@) by {
        assert(board::waiting(f, r, pools[i]@) =~= board::waiting(f, b, pools[i]@));
    }
}

impl<'a> Scheduler<'a> {
    /// Takes all ready edges out of their queue, in order.
    fn drain(&mut self, Ghost(out): Ghost<Set<usize>>) -> (r: Vec<usize>)
        requires
            old(self).is_kept(out),
        ensures
            final(self).is_kept(out.union(board::doing(old(self).board(), Phase::Ready))),
            final(self).field() == old(self).field(),
            final(self).limits() == old(self).limits(),
            final(self).control() == old(self).control(),
            final(self).board() == old(self).board(),
            r@ == board::ordered(old(self).field().weights, old(self).ready@),
    {
        let ghost b = self.board();
        let ghost w = self.weights@;
        let ghost start = *self;
        let ghost goal = board::ordered(w, self.ready@);
        let mut r: Vec<usize> = Vec::new();
        proof {
            assert(r@ + goal =~= goal);
        }
        loop
            invariant
                b == start.board(),
                start == *old(self),
                self.board() == b,
                self.field() == start.field(),
                self.limits == start.limits,
                self.control == start.control,
                self.weights == start.weights,
                self.pools == start.pools,
                self.waiting == start.waiting,
                self.unfinished == start.unfinished,
                w == self.weights@,
                self.ready.well_formed(w),
                r@ + board::ordered(w, self.ready@) == goal,
            ensures
                self.ready@ == Set::<usize>::empty(),
                r@ == goal,
            decreases self.ready@.len(),
        {
            proof {
                self.ready.lemma_bounds(w);
            }
            let ghost before = self.ready@;
            match self.ready.pop(self.weights.as_slice()) {
                None => {
                    proof {
                        assert(board::ordered(w, self.ready@) =~= seq![]);
                        assert(r@ =~= goal);
                    }
                    break;
                },
                Some(k) => {
                    let ghost listed = r@;
                    r.push(k);
                    proof {
                        assert(board::ordered(w, before) == seq![k] + board::ordered(
                            w,
                            before.remove(k),
                        ));
                        assert(r@ + board::ordered(w, self.ready@) =~= listed + (seq![k]
                            + board::ordered(w, before.remove(k))));
                    }
                },
            }
        }
        proof {
            let more = out.union(board::doing(b, Phase::Ready));
            assert(self.ready@ =~= board::doing(b, Phase::Ready).difference(more));
        }
        r
    }

    /// Puts ready edges back into their queue.
    fn refill(&mut self, list: &Vec<usize>, Ghost(out): Ghost<Set<usize>>)
        requires
            old(self).is_kept(out),
            list@.no_duplicates(),
            forall|k: usize| #[trigger]
                list@.contains(k) <==> out.contains(k) && board::doing(
                    old(self).board(),
                    Phase::Ready,
                ).contains(k),
        ensures
            final(self).is_kept(Set::empty()),
            final(self).field() == old(self).field(),
            final(self).limits() == old(self).limits(),
            final(self).control() == old(self).control(),
            final(self).board() == old(self).board(),
    {
        let ghost b = self.board();
        let ghost w = self.weights@;
        let ghost start = *self;
        let ghost ready = board::doing(b, Phase::Ready);
        let mut i: usize = 0;
        proof {
            assert(list@.take(0) =~= seq![]);
            assert(self.ready@ =~= ready.difference(out).union(list@.take(0).to_set()));
        }
        while i < list.len()
            invariant
                b == start.board(),
                start == *old(self),
                start.is_kept(out),
                ready == board::doing(b, Phase::Ready),
                self.board() == b,
                self.field() == start.field(),
                self.limits == start.limits,
                self.control == start.control,
                self.weights == start.weights,
                self.pools == start.pools,
                self.waiting == start.waiting,
                self.unfinished == start.unfinished,
                w == self.weights@,
                w.len() == b.phase.len(),
                self.ready.well_formed(w),
                i <= list@.len(),
                list@.no_duplicates(),
                forall|k: usize| #[trigger]
                    list@.contains(k) <==> out.contains(k) && ready.contains(k),
                self.ready@ == ready.difference(out).union(list@.take(i as int).to_set()),
            decreases list@.len() - i,
        {
            let k: usize = list[i];
            proof {
                let shorter = list@.take(i as int);
                let longer = list@.take(i + 1);
                assert(longer =~= shorter.push(k));
                assert(list@.contains(k));
                assert(!shorter.contains(k)) by {
                    if shorter.contains(k) {
                        let x = choose|x: int| 0 <= x < i && shorter[x] == k;
                        assert(list@[x] == list@[i as int]);
                    }
                }
                assert forall|x: usize| #[trigger] longer.contains(x) <==> shorter.contains(x) || x
                    == k by {
                    soundness::lemma_push_contains(shorter, k, x);
                }
                assert(longer.to_set() =~= shorter.to_set().insert(k));
            }
            self.ready.push(self.weights.as_slice(), k);
            proof {
                assert(self.ready@ =~= ready.difference(out).union(list@.take(i + 1).to_set()));
            }
            i += 1;
        }
        proof {
            assert(list@.take(i as int) =~= list@);
            assert(self.ready@ =~= ready.difference(Set::empty())) by {
                assert forall|k: usize| self.ready@.contains(k) <==> ready.contains(k) by {
                    assert(list@.to_set().contains(k) <==> list@.contains(k));
                }
            }
        }
    }

    fn is_idle(&self, k: usize) -> (r: bool)
        requires
            soundness::is_field(self.field()),
            soundness::is_sound(self.field(), self.board()),
            self.board().plan is Some,
            k < self.phase@.len(),
        ensures
            r == board::is_idle(self.field(), self.board(), k),
    {
        let edge: &Edge = &self.manifest.edges[k];
        proof {
            assert(self.field().m.edges[k as int] == edge.deep_view());
        }
        let planned: bool = match &self.plan {
            Some(plan) => plan[k],
            None => false,
        };
        same_str(edge.rule.as_str(), "phony") && !self.failed[k] && (!planned || (
        edge.explicit_inputs.len() == 0 && edge.implicit_inputs.len() == 0
            && edge.order_only_inputs.len() == 0))
    }

    /// Adds those of `list` for which there is nothing to be done to `line`, and the
    /// others to `retained`.
    fn classify(&self, list: &Vec<usize>, line: &mut Vec<usize>, retained: &mut Vec<usize>)
        requires
            soundness::is_field(self.field()),
            soundness::is_sound(self.field(), self.board()),
            self.board().plan is Some,
            list@.no_duplicates(),
            forall|i: int| 0 <= i < list@.len() ==> (#[trigger] list@[i]) < self.phase@.len(),
            old(retained)@.no_duplicates(),
            forall|k: usize| #[trigger] list@.contains(k) ==> !old(retained)@.contains(k),
        ensures
            final(line)@ == old(line)@ + board::idle(self.field(), self.board(), list@),
            final(retained)@.no_duplicates(),
            forall|k: usize| #[trigger]
                final(retained)@.contains(k) <==> old(retained)@.contains(k) || (list@.contains(k)
                    && !board::is_idle(self.field(), self.board(), k)),
    {
        let ghost f = self.field();
        let ghost b = self.board();
        let ghost first = line@;
        let ghost kept = retained@;
        let mut i: usize = 0;
        proof {
            assert(list@.take(0) =~= seq![]);
            assert(line@ =~= first + board::idle(f, b, list@.take(0)));
        }
        while i < list.len()
            invariant
                f == self.field(),
                b == self.board(),
                soundness::is_field(f),
                soundness::is_sound(f, b),
                b.plan is Some,
                b.phase == self.phase@,
                first == old(line)@,
                kept == old(retained)@,
                i <= list@.len(),
                list@.no_duplicates(),
                forall|i: int| 0 <= i < list@.len() ==> (#[trigger] list@[i]) < self.phase@.len(),
                forall|k: usize| #[trigger] list@.contains(k) ==> !kept.contains(k),
                line@ == first + board::idle(f, b, list@.take(i as int)),
                retained@.no_duplicates(),
                forall|k: usize| #[trigger]
                    retained@.contains(k) <==> kept.contains(k) || (list@.take(i as int).contains(k)
                        && !board::is_idle(f, b, k)),
            decreases list@.len() - i,
        {
            let k: usize = list[i];
            let ghost before = retained@;
            let ghost shorter = list@.take(i as int);
            let ghost longer = list@.take(i + 1);
            proof {
                assert(longer =~= shorter.push(k));
                assert(longer.drop_last() =~= shorter);
                assert(list@.contains(k));
                assert(!shorter.contains(k)) by {
                    if shorter.contains(k) {
                        let x = choose|x: int| 0 <= x < i && shorter[x] == k;
                        assert(list@[x] == list@[i as int]);
                    }
                }
                assert forall|x: usize| #[trigger] longer.contains(x) <==> shorter.contains(x) || x
                    == k by {
                    soundness::lemma_push_contains(shorter, k, x);
                }
            }
            if self.is_idle(k) {
                line.push(k);
                proof {
                    assert(line@ =~= first + board::idle(f, b, longer));
                }
            } else {
                proof {
                    soundness::lemma_push_distinct(before, k);
                }
                retained.push(k);
                proof {
                    assert forall|x: usize| #[trigger]
                        retained@.contains(x) <==> kept.contains(x) || (longer.contains(x)
                            && !board::is_idle(f, b, x)) by {
                        soundness::lemma_push_contains(before, k, x);
                    }
                }
            }
            i += 1;
        }
        proof {
            assert(list@.take(i as int) =~= list@);
        }
    }

    /// Finishes phony edges for which there is nothing to be done.
    fn finish_ready_clean_phonies(&mut self)
        requires
            old(self).is_kept(Set::empty()),
            old(self).board().plan is Some,
        ensures
            final(self).is_kept(Set::empty()),
            final(self).field() == old(self).field(),
            final(self).limits() == old(self).limits(),
            final(self).control() == old(self).control(),
            final(self).board() == board::without_idle(old(self).field(), old(self).board()),
    {
        let ghost f = self.field();
        let ghost b = self.board();
        let ghost goal = board::without_idle(f, b);
        proof {
            soundness::lemma_without_idle_is_sound(f, b);
            soundness::lemma_few_are_doing(f, b, Phase::Ready, seq![]);
            soundness::lemma_ordered(f.weights, board::doing(b, Phase::Ready));
            assert(self.ready@ =~= board::doing(b, Phase::Ready));
        }
        let ghost mut out = Set::<usize>::empty();
        let all: Vec<usize> = self.drain(Ghost(out));
        proof {
            out = out.union(board::doing(b, Phase::Ready));
            assert forall|i: int| 0 <= i < all@.len() implies (#[trigger] all@[i])
                < self.phase@.len() by {
                assert(all@.to_set().contains(all@[i]));
            }
        }
        let mut line: Vec<usize> = Vec::new();
        let mut retained: Vec<usize> = Vec::new();
        self.classify(&all, &mut line, &mut retained);
        let mut head: usize = 0;
        proof {
            soundness::lemma_idle(f, b, all@);
            let rest = line@.skip(0);
            assert(rest =~= board::idle(f, b, all@));
            assert forall|k: usize| #[trigger] board::doing(b, Phase::Ready).contains(k)
                <==> rest.contains(k) || retained@.contains(k) by {
                assert(all@.to_set().contains(k) <==> all@.contains(k));
            }
        }
        while head < line.len()
            invariant
                f == self.field(),
                f == old(self).field(),
                self.limits() == old(self).limits(),
                self.control() == old(self).control(),
                self.is_kept(out),
                self.board().plan is Some,
                head <= line@.len(),
                soundness::is_line(self.board(), line@.skip(head as int)),
                board::cleared(f, self.board(), line@.skip(head as int)) == goal,
                retained@.no_duplicates(),
                forall|k: usize| #[trigger]
                    board::doing(self.board(), Phase::Ready).contains(k) <==> line@.skip(
                        head as int,
                    ).contains(k) || retained@.contains(k),
                forall|k: usize| #[trigger]
                    board::doing(self.board(), Phase::Ready).contains(k) ==> out.contains(k),
                forall|k: usize| #[trigger]
                    retained@.contains(k) ==> !line@.skip(head as int).contains(k),
            decreases board::remaining(self.board().phase, self.board().phase.len() as int),
        {
            let k: usize = line[head];
            let ghost now = self.board();
            let ghost rest = line@.skip(head as int);
            proof {
                assert(rest[0] == k);
                assert(board::doing(now, Phase::Ready).contains(rest[0]));
                soundness::lemma_next_line(f, now, rest);
            }
            self.finish(k, true, Ghost(out));
            let ghost next = self.board();
            let ghost new = board::doing(next, Phase::Ready).difference(
                board::doing(now, Phase::Ready),
            );
            proof {
                assert(next.phase.len() == now.phase.len());
                soundness::lemma_finished_phases(f, now, k, true);
                assert forall|x: usize| self.ready@.contains(x) <==> new.contains(x) by {
                    if new.contains(x) {
                        assert(next.phase[x as int] == now.phase[x as int] || now.phase[x as int]
                            == Phase::Blocked);
                    }
                    if board::doing(now, Phase::Ready).contains(x) {
                        assert(out.contains(x));
                    }
                }
                assert(self.ready@ =~= new);
                queue::lemma_set_below(new, next.phase.len());
                soundness::lemma_ordered(f.weights, new);
            }
            let more: Vec<usize> = self.drain(Ghost(out));
            proof {
                out = out.union(board::doing(next, Phase::Ready));
                assert forall|i: int| 0 <= i < more@.len() implies (#[trigger] more@[i])
                    < self.phase@.len() by {
                    assert(more@.to_set().contains(more@[i]));
                }
                assert forall|x: usize| #[trigger] more@.contains(x) implies !retained@.contains(
                    x,
                ) by {
                    assert(more@.to_set().contains(x));
                    assert(new.contains(x));
                    assert(!board::doing(now, Phase::Ready).contains(x));
                }
            }
            let ghost before = line@;
            let ghost kept = retained@;
            self.classify(&more, &mut line, &mut retained);
            head += 1;
            proof {
                let after = line@.skip(head as int);
                assert(after =~= rest.skip(1) + board::idle(f, next, more@));
                lemma_line_goes_on(f, now, rest, kept, more@, after, retained@);
            }
        }
        proof {
            assert(line@.skip(head as int) =~= seq![]);
            assert forall|k: usize| #[trigger] retained@.contains(k) <==> out.contains(k)
                && board::doing(self.board(), Phase::Ready).contains(k) by {
                assert(board::doing(self.board(), Phase::Ready).contains(k) <==> line@.skip(
                    head as int,
                ).contains(k) || retained@.contains(k));
            }
        }
        self.refill(&retained, Ghost(out));
    }
}

proof fn lemma_join_contains<A>(a: Seq<A>, b: Seq<A>, x: A)
    ensures
        (a + b).contains(x) <==> a.contains(x) || b.contains(x),
{
    let both = a + b;
    if a.contains(x) {
        let i = choose|i: int| 0 <= i < a.len() && a[i] == x;
        assert(both[i] == x);
    }
    if b.contains(x) {
        let i = choose|i: int| 0 <= i < b.len() && b[i] == x;
        assert(both[a.len() + i] == x);
    }
    if both.contains(x) {
        let i = choose|i: int| 0 <= i < both.len() && both[i] == x;
        if i < a.len() {
            assert(a[i] == x);
        } else {
            assert(b[i - a.len()] == x);
        }
    }
}

/// How the line and the edges that were put aside go on when the first edge of the
/// line has finished.
proof fn lemma_line_goes_on(
    f: Field,
    now: Board,
    rest: Seq<usize>,
    kept: Seq<usize>,
    more: Seq<usize>,
    after: Seq<usize>,
    retained: Seq<usize>,
)
    requires
        soundness::is_field(f),
        soundness::is_sound(f, now),
        soundness::is_line(now, rest),
        rest.len() > 0,
        forall|x: usize| #[trigger]
            board::doing(now, Phase::Ready).contains(x) <==> rest.contains(x) || kept.contains(x),
        forall|x: usize| #[trigger] kept.contains(x) ==> !rest.contains(x),
        more == board::ordered(
            f.weights,
            board::doing(board::finished(f, now, rest[0], true), Phase::Ready).difference(
                board::doing(now, Phase::Ready),
            ),
        ),
        after == rest.skip(1) + board::idle(f, board::finished(f, now, rest[0], true), more),
        forall|x: usize| #[trigger]
            retained.contains(x) <==> kept.contains(x) || (more.contains(x) && !board::is_idle(
                f,
                board::finished(f, now, rest[0], true),
                x,
            )),
    ensures
        after == soundness::next_line(f, now, rest),
        forall|x: usize| #[trigger]
            board::doing(board::finished(f, now, rest[0], true), Phase::Ready).contains(x)
                <==> after.contains(x) || retained.contains(x),
        forall|x: usize| #[trigger] retained.contains(x) ==> !after.contains(x),
{
    let k = rest[0];
    assert(board::doing(now, Phase::Ready).contains(rest[0]));
    let next = board::finished(f, now, k, true);
    let new = board::doing(next, Phase::Ready).difference(board::doing(now, Phase::Ready));
    let extra = board::idle(f, next, more);
    soundness::lemma_finished_phases(f, now, k, true);
    queue::lemma_set_below(new, next.phase.len());
    soundness::lemma_ordered(f.weights, new);
    soundness::lemma_idle(f, next, more);
    let tail = rest.skip(1);
    assert(rest =~= seq![k] + tail);
    assert(seq![k][0] == k);
    assert(!tail.contains(k)) by {
        if tail.contains(k) {
            let x = choose|x: int| 0 <= x < tail.len() && tail[x] == k;
            assert(rest[x + 1] == rest[0]);
        }
    }
    assert forall|x: usize|
        (#[trigger] after.contains(x) <==> tail.contains(x) || extra.contains(x)) && (
        rest.contains(x) <==> tail.contains(x) || x == k) && (more.contains(x) <==> new.contains(
            x,
        )) by {
        lemma_join_contains(tail, extra, x);
        lemma_join_contains(seq![k], tail, x);
        assert(more.contains(x) <==> more.to_set().contains(x));
    }
    assert forall|x: usize| #[trigger]
        board::doing(next, Phase::Ready).contains(x) <==> after.contains(x) || retained.contains(
            x,
        ) by {
        assert(after.contains(x) <==> tail.contains(x) || extra.contains(x));
        assert(extra.contains(x) <==> more.contains(x) && board::is_idle(f, next, x));
        assert(board::doing(now, Phase::Ready).contains(x) <==> rest.contains(x) || kept.contains(
            x,
        ));
        if board::doing(now, Phase::Ready).contains(x) && x != k {
            assert(next.phase[x as int] == now.phase[x as int]);
        }
    }
    assert forall|x: usize| #[trigger] retained.contains(x) implies !after.contains(x) by {
        assert(after.contains(x) <==> tail.contains(x) || extra.contains(x));
        assert(extra.contains(x) <==> more.contains(x) && board::is_idle(f, next, x));
        assert(board::doing(now, Phase::Ready).contains(x) <==> rest.contains(x) || kept.contains(
            x,
        ));
    }
}

/// The board once those of `seen` that need places wait for them.
spec fn parked_among(f: Field, b: Board, seen: Set<usize>) -> Board {
    Board {
        phase: Seq::new(
            b.phase.len(),
            |k: int|
                if seen.contains(k as usize) && b.phase[k] == Phase::Ready && board::needs_place(
                    f,
                    b,
                    k as usize,
                ) {
                    Phase::Parked
                } else {
                    b.phase[k]
                },
        ),
        ..b
    }
}

/// What becomes of the edges that wait for places when one more does.
proof fn lemma_one_more_waits(f: Field, b: Board, k: usize, pools: Seq<String>)
    requires
        soundness::is_field(f),
        k < b.phase.len(),
        b.phase[k as int] == Phase::Ready || b.phase[k as int] == Phase::Held,
        board::limit_of(f, k) is Some,
        text::strings(pools) == f.pools,
    ensures
        ({
            let r = board::with_phase(b, k, Phase::Parked);
            forall|i: int|
                0 <= i < pools.len() ==> board::waiting(f, r, (#[trigger] pools[i])@) == (if pools[i]@
                    == board::limit_of(f, k)->Some_0.0 {
                    board::waiting(f, b, pools[i]@).insert(k)
                } else {
                    board::waiting(f, b, pools[i]@)
                })
        }),
{
    let r = board::with_phase(b, k, Phase::Parked);
    assert forall|i: int| 0 <= i < pools.len() implies board::waiting(f, r, (
    #[trigger] pools[i])@) == (if pools[i]@ == board::limit_of(f, k)->Some_0.0 {
        board::waiting(f, b, pools[i]@).insert(k)
    } else {
        board::waiting(f, b, pools[i]@)
    }) by {
        let pool = pools[i]@;
        if pool == board::limit_of(f, k)->Some_0.0 {
            assert(board::waiting(f, r, pool) =~= board::waiting(f, b, pool).insert(k));
        } else {
            assert(board::waiting(f, r, pool) =~= board::waiting(f, b, pool));
        }
    }
}

impl<'a> Scheduler<'a> {
    fn wants_place(&self, k: usize) -> (r: Option<usize>)
        requires
            soundness::is_field(self.field()),
            soundness::is_sound(self.field(), self.board()),
            self.board().plan is Some,
            k < self.phase@.len(),
            self.phase@[k as int] != Phase::Absent,
        ensures
            match r {
                Some(i) => {
                    &&& board::needs_place(self.field(), self.board(), k)
                    &&& i < self.pools@.len()
                    &&& self.pools@[i as int]@ == board::limit_of(self.field(), k)->Some_0.0
                },
                None => !board::needs_place(self.field(), self.board(), k),
            },
    {
        let planned: bool = match &self.plan {
            Some(plan) => plan[k],
            None => false,
        };
        if self.reserved[k] || !planned {
            return None;
        }
        self.find_pool(k)
    }

    /// The limited pool of an edge, by its number.
    fn find_pool(&self, k: usize) -> (r: Option<usize>)
        requires
            soundness::is_field(self.field()),
            soundness::is_sound(self.field(), self.board()),
            k < self.phase@.len(),
            self.phase@[k as int] != Phase::Absent,
        ensures
            match r {
                Some(i) => {
                    &&& board::limit_of(self.field(), k) is Some
                    &&& i < self.pools@.len()
                    &&& self.pools@[i as int]@ == board::limit_of(self.field(), k)->Some_0.0
                },
                None => board::limit_of(self.field(), k) is None,
            },
    {
        let ghost f = self.field();
        let edge: &Edge = &self.manifest.edges[k];
        proof {
            assert(f.m.edges[k as int] == edge.deep_view());
        }
        let pool: String = match limited_pool(self.manifest, edge, self.windows) {
            Some((pool, _)) => pool,
            None => {
                return None;
            },
        };
        proof {
            assert(self.board().phase[k as int] != Phase::Absent);
            assert(f.pools.contains(pool@));
        }
        let mut i: usize = 0;
        while i < self.pools.len()
            invariant
                f == self.field(),
                f.pools == text::strings(self.pools@),
                f.pools.contains(pool@),
                board::limit_of(f, k) is Some,
                board::limit_of(f, k)->Some_0.0 == pool@,
                i <= self.pools@.len(),
                forall|x: int| 0 <= x < i ==> #[trigger] f.pools[x] != pool@,
            decreases self.pools@.len() - i,
        {
            proof {
                assert(f.pools[i as int] == self.pools@[i as int]@);
            }
            if same_str(self.pools[i].as_str(), pool.as_str()) {
                return Some(i);
            }
            i += 1;
        }
        None
    }

    /// Makes ready edges that need places wait for them.
    fn park(&mut self)
        requires
            old(self).is_kept(Set::empty()),
            old(self).board().plan is Some,
        ensures
            final(self).is_kept(Set::empty()),
            final(self).field() == old(self).field(),
            final(self).limits() == old(self).limits(),
            final(self).control() == old(self).control(),
            final(self).board() == board::parked(old(self).field(), old(self).board()),
    {
        let ghost f = self.field();
        let ghost b = self.board();
        let ghost ready = board::doing(b, Phase::Ready);
        proof {
            soundness::lemma_few_are_doing(f, b, Phase::Ready, seq![]);
            soundness::lemma_ordered(f.weights, ready);
            assert(self.ready@ =~= ready);
        }
        let all: Vec<usize> = self.drain(Ghost(Set::empty()));
        let ghost out = Set::<usize>::empty().union(ready);
        let mut kept: Vec<usize> = Vec::new();
        let mut i: usize = 0;
        proof {
            assert(out =~= ready);
            assert(all@.take(0) =~= seq![]);
            assert(parked_among(f, b, all@.take(0).to_set()) =~= b);
            assert forall|x: int| 0 <= x < all@.len() implies ready.contains(
                #[trigger] all@[x],
            ) by {
                assert(all@.to_set().contains(all@[x]));
            }
        }
        while i < all.len()
            invariant
                f == self.field(),
                f == old(self).field(),
                b == old(self).board(),
                self.limits() == old(self).limits(),
                self.control() == old(self).control(),
                ready == board::doing(b, Phase::Ready),
                out == ready,
                b.plan is Some,
                self.is_kept(out),
                all@.no_duplicates(),
                all@.to_set() == ready,
                forall|x: int| 0 <= x < all@.len() ==> ready.contains(#[trigger] all@[x]),
                i <= all@.len(),
                self.board() == parked_among(f, b, all@.take(i as int).to_set()),
                kept@.no_duplicates(),
                forall|k: usize| #[trigger]
                    kept@.contains(k) <==> all@.take(i as int).contains(k) && !board::needs_place(
                        f,
                        b,
                        k,
                    ),
            decreases all@.len() - i,
        {
            let k: usize = all[i];
            let ghost now = self.board();
            let ghost shorter = all@.take(i as int);
            let ghost longer = all@.take(i + 1);
            proof {
                assert(ready.contains(all@[i as int]));
                assert(longer =~= shorter.push(k));
                assert(!shorter.contains(k)) by {
                    if shorter.contains(k) {
                        let x = choose|x: int| 0 <= x < i && shorter[x] == k;
                        assert(all@[x] == all@[i as int]);
                    }
                }
                assert forall|x: usize| #[trigger] longer.contains(x) <==> shorter.contains(x) || x
                    == k by {
                    soundness::lemma_push_contains(shorter, k, x);
                }
                assert(longer.to_set() =~= shorter.to_set().insert(k));
                assert(now.phase[k as int] == Phase::Ready);
                assert(board::needs_place(f, now, k) == board::needs_place(f, b, k));
            }
            match self.wants_place(k) {
                Some(p) => {
                    let ghost before = *self;
                    self.phase.set(k, Phase::Parked);
                    self.waiting[p].push(self.weights.as_slice(), k);
                    proof {
                        let after = board::with_phase(now, k, Phase::Parked);
                        assert(self.board() =~= after);
                        assert(after =~= parked_among(f, b, longer.to_set()));
                        lemma_one_more_waits(f, now, k, self.pools@);
                        assert forall|x: int| 0 <= x < after.phase.len() && #[trigger] after.phase[x]
                            == Phase::Parked implies board::limit_of(f, x as usize) is Some by {
                            assert(x == k || now.phase[x] == Phase::Parked);
                        }
                        soundness::lemma_phases_are_sound(f, now, after);
                        assert(self.ready@ =~= board::doing(after, Phase::Ready).difference(out));
                        assert forall|x: int| 0 <= x < self.waiting@.len() implies (
                        #[trigger] self.waiting@[x]).well_formed(self.weights@)
                            && self.waiting@[x]@ == board::waiting(f, after, self.pools@[x]@) by {
                            assert(before.waiting@[x]@ == board::waiting(f, now, self.pools@[x]@));
                            if x != p {
                                assert(f.pools[x] != f.pools[p as int]);
                            }
                        }
                    }
                },
                None => {
                    proof {
                        soundness::lemma_push_distinct(kept@, k);
                        assert(now =~= parked_among(f, b, longer.to_set()));
                    }
                    let ghost before = kept@;
                    kept.push(k);
                    proof {
                        assert forall|x: usize| #[trigger]
                            kept@.contains(x) <==> longer.contains(x) && !board::needs_place(
                                f,
                                b,
                                x,
                            ) by {
                            soundness::lemma_push_contains(before, k, x);
                        }
                    }
                },
            }
            i += 1;
        }
        proof {
            assert(all@.take(i as int) =~= all@);
            assert(self.board() =~= board::parked(f, b));
            assert forall|k: usize| #[trigger] kept@.contains(k) <==> out.contains(k)
                && board::doing(self.board(), Phase::Ready).contains(k) by {
                assert(all@.contains(k) <==> all@.to_set().contains(k));
            }
        }
        self.refill(&kept, Ghost(out));
    }
}

/// What becomes of the edges that wait for places when the first is let in to pool
/// `p`.
proof fn lemma_one_less_waits(f: Field, b: Board, k: usize, p: int, pools: Seq<String>)
    requires
        soundness::is_field(f),
        text::strings(pools) == f.pools,
        0 <= p < pools.len(),
        board::waiting(f, b, pools[p]@).contains(k),
    ensures
        ({
            let r = board::let_in(b, k, pools[p]@);
            &&& board::waiting(f, r, pools[p]@) == board::waiting(f, b, pools[p]@).remove(k)
            &&& forall|i: int|
                0 <= i < pools.len() && i != p ==> board::waiting(f, r, (#[trigger] pools[i])@)
                    == board::waiting(f, b, pools[i]@)
            &&& board::doing(r, Phase::Ready) == board::doing(b, Phase::Ready).insert(k)
        }),
{
    let r = board::let_in(b, k, pools[p]@);
    assert(board::waiting(f, r, pools[p]@) =~= board::waiting(f, b, pools[p]@).remove(k));
    assert(board::doing(r, Phase::Ready) =~= board::doing(b, Phase::Ready).insert(k));
    assert forall|i: int| 0 <= i < pools.len() && i != p implies board::waiting(f, r, (
    #[trigger] pools[i])@) == board::waiting(f, b, pools[i]@) by {
        assert(f.pools[i] != f.pools[p]);
        assert(board::waiting(f, r, pools[i]@) =~= board::waiting(f, b, pools[i]@));
    }
}

impl<'a> Scheduler<'a> {
    /// Lets edges that wait for a place in pool `p` in, as far as there is room.
    fn let_in(&mut self, p: usize)
        requires
            old(self).is_kept(Set::empty()),
            p < old(self).pools@.len(),
        ensures
            final(self).is_kept(Set::empty()),
            final(self).field() == old(self).field(),
            final(self).limits() == old(self).limits(),
            final(self).control() == old(self).control(),
            final(self).board() == board::admitted_to(
                old(self).field(),
                old(self).board(),
                old(self).field().pools[p as int],
            ),
    {
        let ghost f = self.field();
        let ghost pool = f.pools[p as int];
        let ghost goal = board::admitted_to(f, self.board(), pool);
        proof {
            assert(pool == self.pools@[p as int]@);
        }
        let limit: usize = pool_limit(self.manifest, Some(self.pools[p].as_str()), usize::MAX);
        loop
            invariant
                f == self.field(),
                f == old(self).field(),
                self.limits() == old(self).limits(),
                self.control() == old(self).control(),
                self.is_kept(Set::empty()),
                p < self.pools@.len(),
                pool == self.pools@[p as int]@,
                pool == f.pools[p as int],
                limit == pools::room(f.m, Some(pool), usize::MAX),
                goal == board::admitted_to(f, self.board(), pool),
                goal == board::admitted_to(old(self).field(), old(self).board(), pool),
            decreases limit - pools::held(self.board().places.usage, pool),
        {
            let ghost b = self.board();
            let ghost before = *self;
            proof {
                assert(self.waiting@[p as int].well_formed(self.weights@));
                self.waiting@[p as int].lemma_bounds(self.weights@);
            }
            if self.waiting[p].len() == 0 {
                proof {
                    assert(board::waiting(f, b, pool) =~= Set::<usize>::empty());
                }
                return;
            }
            let count: usize = match map_get(&self.usage, self.pools[p].as_str()) {
                Some(count) => *count,
                None => 0,
            };
            if count >= limit {
                proof {
                    assert(board::waiting(f, b, pool) != Set::<usize>::empty());
                    soundness::lemma_admitted_to_is_sound(f, b, pool);
                }
                map_insert(&mut self.usage, self.pools[p].clone(), count);
                proof {
                    assert(self.board() =~= board::admitted_to(f, b, pool));
                    lemma_same_phases(f, b, self.board(), self.pools@);
                }
                return;
            }
            proof {
                assert(board::waiting(f, b, pool) != Set::<usize>::empty());
                soundness::lemma_let_in_is_sound(f, b, pool);
            }
            match self.waiting[p].pop(self.weights.as_slice()) {
                None => {
                    return;
                },
                Some(k) => {
                    proof {
                        lemma_one_less_waits(f, b, k, p as int, self.pools@);
                    }
                    self.phase.set(k, Phase::Ready);
                    self.reserved.set(k, true);
                    map_insert(&mut self.usage, self.pools[p].clone(), count + 1);
                    self.ready.push(self.weights.as_slice(), k);
                    proof {
                        let after = board::let_in(b, k, pool);
                        assert(self.board() =~= after);
                        assert(self.ready@ =~= board::doing(after, Phase::Ready).difference(
                            Set::empty(),
                        ));
                        soundness::lemma_remaining_same(
                            b.phase,
                            after.phase,
                            b.phase.len() as int,
                        );
                        assert forall|x: int| 0 <= x < self.waiting@.len() implies (
                        #[trigger] self.waiting@[x]).well_formed(self.weights@)
                            && self.waiting@[x]@ == board::waiting(f, after, self.pools@[x]@) by {
                            assert(before.waiting@[x]@ == board::waiting(f, b, self.pools@[x]@));
                        }
                    }
                },
            }
        }
    }

    /// Makes ready edges wait for places that they need, and lets them in as far as
    /// there is room.
    fn admit_pool_edges(&mut self)
        requires
            old(self).is_kept(Set::empty()),
            old(self).board().plan is Some,
        ensures
            final(self).is_kept(Set::empty()),
            final(self).field() == old(self).field(),
            final(self).limits() == old(self).limits(),
            final(self).control() == old(self).control(),
            final(self).board() == board::admitted(old(self).field(), old(self).board()),
    {
        let ghost f = self.field();
        let ghost b = self.board();
        if self.pools.len() == 0 {
            proof {
                let r = board::parked(f, b);
                assert forall|k: int| 0 <= k < b.phase.len() implies #[trigger] r.phase[k]
                    == b.phase[k] by {
                    if b.phase[k] == Phase::Ready {
                        assert(board::limit_of(f, k as usize) matches Some((pool, _))
                            ==> f.pools.contains(pool));
                    }
                }
                assert(r =~= b);
            }
            return;
        }
        self.park();
        let ghost start = self.board();
        let mut p: usize = 0;
        while p < self.pools.len()
            invariant
                f == self.field(),
                f == old(self).field(),
                f.pools.len() == self.pools@.len(),
                b == old(self).board(),
                start == board::parked(f, b),
                self.limits() == old(self).limits(),
                self.control() == old(self).control(),
                self.is_kept(Set::empty()),
                p <= self.pools@.len(),
                self.board() == board::admitted_to_pools(f, start, p as int),
            decreases f.pools.len() - p,
        {
            self.let_in(p);
            p += 1;
        }
    }
}

/// The limited pools of the first `n` edges of `list`, each once.
pub open spec fn pools_among(
    m: ManifestView,
    windows: bool,
    list: Seq<usize>,
    n: int,
) -> Seq<Seq<char>>
    decreases n,
{
    if n <= 0 {
        seq![]
    } else {
        let before = pools_among(m, windows, list, n - 1);
        match pools::limited(m, m.edges[list[n - 1] as int], windows) {
            Some((pool, _)) => if before.contains(pool) {
                before
            } else {
                before.push(pool)
            },
            None => before,
        }
    }
}

/// The board before anything has been done for the edges of `list`.
pub open spec fn empty_board(list: Seq<usize>, pending: Seq<usize>) -> Board {
    let n = pending.len();
    Board {
        phase: Seq::new(
            n,
            |k: int|
                if !list.contains(k as usize) {
                    Phase::Absent
                } else if pending[k] == 0 {
                    Phase::Ready
                } else {
                    Phase::Blocked
                },
        ),
        pending,
        failed: links::none(n),
        broken: links::none(n),
        fresh: seq![],
        places: Places { reserved: links::none(n), usage: Map::empty() },
        plan: None,
    }
}

pub open spec fn first_control() -> Control {
    Control { top: true, left: 0, moved: false, running: 0, failures: 0, stopped: false }
}

proof fn lemma_pools_cover(m: ManifestView, windows: bool, list: Seq<usize>, n: int)
    requires
        0 <= n <= list.len(),
    ensures
        pools_among(m, windows, list, n).no_duplicates(),
        forall|i: int|
            0 <= i < n ==> (pools::limited(m, m.edges[(#[trigger] list[i]) as int], windows)
                matches Some((pool, _)) ==> pools_among(m, windows, list, n).contains(pool)),
    decreases n,
{
    if n > 0 {
        lemma_pools_cover(m, windows, list, n - 1);
        let before = pools_among(m, windows, list, n - 1);
        let after = pools_among(m, windows, list, n);
        if let Some((pool, _)) = pools::limited(m, m.edges[list[n - 1] as int], windows) {
            if !before.contains(pool) {
                soundness::lemma_push_distinct(before, pool);
            }
            soundness::lemma_push_contains(before, pool, pool);
        }
        assert forall|i: int| 0 <= i < n implies (pools::limited(
            m,
            m.edges[(#[trigger] list[i]) as int],
            windows,
        ) matches Some((pool, _)) ==> after.contains(pool)) by {
            if let Some((pool, _)) = pools::limited(m, m.edges[list[i] as int], windows) {
                if i < n - 1 {
                    assert(before.contains(pool));
                }
                if let Some((last, _)) = pools::limited(m, m.edges[list[n - 1] as int], windows) {
                    soundness::lemma_push_contains(before, last, pool);
                }
            }
        }
    }
}

proof fn lemma_place_is_awaited(g: GraphView, k: usize, p: usize, n: int)
    requires
        links::place(g, k, p, n) is Some,
    ensures
        exists|j: int| 0 <= j < n && #[trigger] closure::awaited(g, k, j) == Some(p),
    decreases n,
{
    if n > 0 && closure::awaited(g, k, n - 1) != Some(p) {
        lemma_place_is_awaited(g, k, p, n - 1);
    }
}

/// What waits for an edge stands behind it.
proof fn lemma_told_come_later(g: GraphView, list: Seq<usize>, told: Seq<usize>, p: usize, d: usize)
    requires
        closure::is_settled(g, list),
        links::are_told(g, list, p, told),
        told.contains(d),
    ensures
        list.contains(p),
        list.contains(d),
        d != p,
        d < g.edges.len(),
{
    lemma_place_is_awaited(g, d, p, closure::names(g, d).len() as int);
    let j = choose|j: int|
        0 <= j < closure::names(g, d).len() && #[trigger] closure::awaited(g, d, j) == Some(p);
    let i = choose|i: int| 0 <= i < list.len() && list[i] == d;
    assert(closure::awaited(g, list[i], j) == Some(p));
    let x = choose|x: int| 0 <= x < list.take(i).len() && list.take(i)[x] == p;
    assert(list[x] == p);
}

proof fn lemma_empty_board_is_sound(f: Field, g: GraphView, list: Seq<usize>, pending: Seq<usize>)
    requires
        closure::is_settled(g, list),
        f.m.edges == g.edges,
        f.m.edges.len() <= usize::MAX,
        f.weights.len() == g.edges.len(),
        links::all_told(g, list, f.told),
        links::all_counted(f.told, pending),
        f.pools == pools_among(f.m, f.windows, list, list.len() as int),
    ensures
        soundness::is_field(f),
        soundness::is_sound(f, empty_board(list, pending)),
{
    let n = g.edges.len();
    let b = empty_board(list, pending);
    lemma_pools_cover(f.m, f.windows, list, list.len() as int);
    assert forall|p: int| 0 <= p < n implies (#[trigger] f.told[p]).no_duplicates() by {
        assert(links::are_told(g, list, p as usize, f.told[p]));
        let told = f.told[p];
        assert forall|x: int, y: int|
            0 <= x < told.len() && 0 <= y < told.len() && x != y implies told[x] != told[y] by {
            if x < y {
                assert(links::is_told_before(g, p as usize, told[x], told[y]));
            } else {
                assert(links::is_told_before(g, p as usize, told[y], told[x]));
            }
        }
    }
    assert forall|p: int, d: usize| 0 <= p < n && #[trigger] f.told[p].contains(d) implies
        list.contains(p as usize) && list.contains(d) && d != p && d < n by {
        assert(links::are_told(g, list, p as usize, f.told[p]));
        lemma_told_come_later(g, list, f.told[p], p as usize, d);
    }
    assert forall|p: int, i: int| 0 <= p < n && 0 <= i < f.told[p].len() implies (
    #[trigger] f.told[p][i]) < n && f.told[p][i] != p by {
        assert(f.told[p].contains(f.told[p][i]));
    }
    assert(soundness::done(b.phase) =~= links::none(n));
    assert forall|d: usize| d < n implies #[trigger] b.failed[d as int]
        == soundness::is_spoiled(f, b, d) by {
        if soundness::is_spoiled(f, b, d) {
            let p = choose|p: int| 0 <= p < f.told.len() && #[trigger] soundness::spoils(f, b, p, d);
            assert(b.phase[p] == Phase::Finished);
        }
    }
    assert forall|k: int| 0 <= k < n && #[trigger] b.phase[k] != Phase::Absent implies (
    board::limit_of(f, k as usize) matches Some((pool, _)) ==> f.pools.contains(pool)) by {
        let i = choose|i: int| 0 <= i < list.len() && list[i] == k as usize;
        assert(pools::limited(f.m, f.m.edges[list[i] as int], f.windows) matches Some((pool, _))
            ==> f.pools.contains(pool));
    }
}

fn find_pools(manifest: &Manifest, windows: bool, closure: &[usize]) -> (r: Vec<String>)
    requires
        forall|i: int| 0 <= i < closure@.len() ==> (#[trigger] closure@[i]) < manifest.edges@.len(),
    ensures
        text::strings(r@) == pools_among(
            manifest.deep_view(),
            windows,
            closure@,
            closure@.len() as int,
        ),
{
    let ghost m = manifest.deep_view();
    let mut r: Vec<String> = Vec::new();
    let mut i: usize = 0;
    proof {
        assert(text::strings(r@) =~= seq![]);
    }
    while i < closure.len()
        invariant
            m == manifest.deep_view(),
            i <= closure@.len(),
            forall|i: int|
                0 <= i < closure@.len() ==> (#[trigger] closure@[i]) < manifest.edges@.len(),
            text::strings(r@) == pools_among(m, windows, closure@, i as int),
        decreases closure@.len() - i,
    {
        let edge: &Edge = &manifest.edges[closure[i]];
        proof {
            assert(m.edges[closure@[i as int] as int] == edge.deep_view());
        }
        if let Some((pool, _)) = limited_pool(manifest, edge, windows) {
            if !holds(&r, pool.as_str()) {
                let ghost before = text::strings(r@);
                let ghost name = pool@;
                r.push(pool);
                proof {
                    assert(text::strings(r@) =~= before.push(name));
                }
            }
        }
        i += 1;
    }
    r
}

fn falses(n: usize) -> (r: Vec<bool>)
    ensures
        r@ == links::none(n as nat),
{
    let mut r: Vec<bool> = Vec::new();
    while r.len() < n
        invariant
            r@.len() <= n,
            forall|k: int| 0 <= k < r@.len() ==> !(#[trigger] r@[k]),
        decreases n - r@.len(),
    {
        r.push(false);
    }
    proof {
        assert(r@ =~= links::none(n as nat));
    }
    r
}

impl<'a> Scheduler<'a> {
    /// A build of the edges of `closure`, which come behind those that they wait for.
    pub fn new(
        graph: &Graph<'a>,
        closure: &[usize],
        weights: Vec<usize>,
        limits: Limits,
        windows: bool,
    ) -> (r: Scheduler<'a>)
        requires
            closure::is_graph(graph@),
            closure::is_settled(graph@, closure@),
            weights@.len() == graph@.edges.len(),
        ensures
            r.well_formed(),
            run_laws::is_fresh(r.field(), r.course()),
            r.limits() == limits,
            r.control() == first_control(),
            r.board() == empty_board(closure@, r.board().pending),
            links::all_counted(r.field().told, r.board().pending),
            links::all_told(graph@, closure@, r.field().told),
            r.field().m == graph.manifest.deep_view(),
            r.field().windows == windows,
            r.field().weights == weights@,
            r.field().pools == pools_among(
                graph.manifest.deep_view(),
                windows,
                closure@,
                closure@.len() as int,
            ),
    {
        let manifest: &'a Manifest = graph.manifest;
        let ghost g = graph@;
        let ghost list = closure@;
        let n: usize = manifest.edges.len();
        let Links { dependents, pending } = graph.link_edges(closure);
        let pools: Vec<String> = find_pools(manifest, windows, closure);
        let inside: Vec<bool> = list_members(n, closure);
        let ghost f = Field {
            m: manifest.deep_view(),
            windows,
            told: links::lists(dependents@),
            weights: weights@,
            pools: text::strings(pools@),
        };
        let ghost b = empty_board(list, pending@);
        proof {
            lemma_empty_board_is_sound(f, g, list, pending@);
        }
        let mut phase: Vec<Phase> = Vec::new();
        let mut ready: Queue = Queue::new();
        let mut unfinished: usize = 0;
        proof {
            assert(ready.well_formed(weights@));
            assert(ready@ =~= board::doing(b, Phase::Ready).intersect(
                Set::new(|k: usize| k < 0),
            ));
        }
        while phase.len() < n
            invariant
                n == b.phase.len(),
                n == inside@.len(),
                n == pending@.len(),
                n == weights@.len(),
                forall|k: usize| k < n ==> #[trigger] inside@[k as int] == list.contains(k),
                b == empty_board(list, pending@),
                phase@.len() <= n,
                forall|k: int| 0 <= k < phase@.len() ==> #[trigger] phase@[k] == b.phase[k],
                unfinished == board::remaining(b.phase, phase@.len() as int),
                unfinished <= phase@.len(),
                board::running(b.phase, phase@.len() as int) == 0,
                ready.well_formed(weights@),
                ready@ == board::doing(b, Phase::Ready).intersect(
                    Set::new(|k: usize| k < phase@.len()),
                ),
            decreases n - phase@.len(),
        {
            let k: usize = phase.len();
            let ghost before = ready@;
            proof {
                assert(inside@[k as int] == list.contains(k));
            }
            if !inside[k] {
                phase.push(Phase::Absent);
            } else if pending[k] == 0 {
                phase.push(Phase::Ready);
                ready.push(weights.as_slice(), k);
                unfinished += 1;
            } else {
                phase.push(Phase::Blocked);
                unfinished += 1;
            }
            proof {
                assert(phase@[k as int] == b.phase[k as int]);
                assert(ready@ =~= board::doing(b, Phase::Ready).intersect(
                    Set::new(|x: usize| x < phase@.len()),
                ));
            }
        }
        let mut waiting: Vec<Queue> = Vec::new();
        while waiting.len() < pools.len()
            invariant
                waiting@.len() <= pools@.len(),
                forall|i: int|
                    0 <= i < waiting@.len() ==> (#[trigger] waiting@[i]).well_formed(weights@)
                        && waiting@[i]@ == Set::<usize>::empty(),
            decreases pools@.len() - waiting@.len(),
        {
            let empty: Queue = Queue::new();
            proof {
                assert(empty.well_formed(weights@));
            }
            waiting.push(empty);
        }
        let r: Scheduler<'a> = Scheduler {
            manifest,
            windows,
            dependents,
            weights,
            pools,
            limits,
            phase,
            pending,
            failed: falses(n),
            broken: falses(n),
            fresh: Vec::new(),
            reserved: falses(n),
            usage: map_new(),
            plan: None,
            ready,
            waiting,
            unfinished,
            control: Control {
                top: true,
                left: 0,
                moved: false,
                running: 0,
                failures: 0,
                stopped: false,
            },
        };
        proof {
            assert(r.phase@ =~= b.phase);
            assert(r.board() =~= b);
            assert(r.field() =~= f);
            assert(r.ready@ =~= board::doing(b, Phase::Ready).difference(Set::empty()));
            assert forall|i: int| 0 <= i < r.waiting@.len() implies (
            #[trigger] r.waiting@[i]).well_formed(r.weights@) && r.waiting@[i]@ == board::waiting(
                f,
                b,
                r.pools@[i]@,
            ) by {
                assert(board::waiting(f, b, r.pools@[i]@) =~= Set::<usize>::empty());
            }
        }
        r
    }
}

/// How many edges run once one more does.
pub proof fn lemma_one_more_runs(before: Seq<Phase>, k: int, n: int)
    requires
        0 <= k < before.len(),
        0 <= n <= before.len(),
        soundness::is_free(before[k]),
        before[k] != Phase::Running,
    ensures
        board::running(before.update(k, Phase::Running), n) == board::running(before, n) + (if k
            < n {
            1nat
        } else {
            0
        }),
    decreases n,
{
    if n > 0 {
        lemma_one_more_runs(before, k, n - 1);
    }
}

impl<'a> Scheduler<'a> {
    /// Changes what an edge does that waits for nothing. The edge is in no queue, or
    /// is to be in that of the ready edges.
    fn set_phase(&mut self, k: usize, phase: Phase, Ghost(out): Ghost<Set<usize>>)
        requires
            old(self).is_kept(out),
            k < old(self).phase@.len(),
            old(self).phase@[k as int] == Phase::Held || (old(self).phase@[k as int]
                == Phase::Ready && out == Set::<usize>::empty().insert(k)),
            old(self).phase@[k as int] == Phase::Held ==> out == Set::<usize>::empty(),
            phase == Phase::Ready || phase == Phase::Held || phase == Phase::Running,
        ensures
            final(self).is_kept(Set::empty()),
            final(self).field() == old(self).field(),
            final(self).limits() == old(self).limits(),
            final(self).control() == old(self).control(),
            final(self).board() == board::with_phase(old(self).board(), k, phase),
    {
        let ghost f = self.field();
        let ghost b = self.board();
        let ghost before = *self;
        self.phase.set(k, phase);
        if matches!(phase, Phase::Ready) {
            self.ready.push(self.weights.as_slice(), k);
        }
        proof {
            let r = board::with_phase(b, k, phase);
            assert(self.board() =~= r);
            assert forall|i: int| 0 <= i < r.phase.len() && #[trigger] r.phase[i]
                == Phase::Parked implies board::limit_of(f, i as usize) is Some by {
                assert(b.phase[i] == Phase::Parked);
            }
            soundness::lemma_phases_are_sound(f, b, r);
            assert(self.ready@ =~= board::doing(r, Phase::Ready).difference(Set::empty()));
            assert forall|x: int| 0 <= x < self.waiting@.len() implies (
            #[trigger] self.waiting@[x]).well_formed(self.weights@) && self.waiting@[x]@
                == board::waiting(f, r, self.pools@[x]@) by {
                assert(before.waiting@[x]@ == board::waiting(f, b, self.pools@[x]@));
                assert(board::waiting(f, r, self.pools@[x]@) =~= board::waiting(
                    f,
                    b,
                    self.pools@[x]@,
                ));
            }
        }
    }

    /// Ends a round.
    fn end_round(&mut self) -> (r: Step)
        requires
            old(self).well_formed(),
        ensures
            final(self).well_formed(),
            final(self).field() == old(self).field(),
            final(self).limits() == old(self).limits(),
            (final(self).course(), r) == board::rounded(old(self).course()),
    {
        if self.control.running > 0 {
            self.control.top = true;
            Step::Wait
        } else if self.control.stopped {
            Step::Done
        } else if !self.control.moved {
            Step::Stuck
        } else {
            self.control.top = true;
            Step::Again
        }
    }

    fn begin_round(&mut self)
        requires
            old(self).well_formed(),
            old(self).control().top,
            board::remaining(
                old(self).board().phase,
                old(self).board().phase.len() as int,
            ) > 0,
        ensures
            final(self).well_formed(),
            final(self).field() == old(self).field(),
            final(self).limits() == old(self).limits(),
            (final(self).course(), Step::Again) == board::next(
                old(self).field(),
                old(self).limits(),
                old(self).course(),
            ),
    {
        let ghost f = self.field();
        let ghost b = self.board();
        let before: usize = self.unfinished;
        if self.plan.is_some() {
            proof {
                soundness::lemma_places_are_sound(f, b, 0);
                soundness::lemma_without_idle_is_sound(f, board::reserved(f, b));
                let idle = board::without_idle(f, board::reserved(f, b));
                soundness::lemma_places_are_sound(f, idle, 0);
                soundness::lemma_admitted_is_sound(f, board::reserved(f, idle));
            }
            self.reserve(Ghost(Set::empty()));
            self.finish_ready_clean_phonies();
            self.reserve(Ghost(Set::empty()));
            self.admit_pool_edges();
        }
        proof {
            assert(self.ready@ =~= board::doing(self.board(), Phase::Ready));
            soundness::lemma_few_are_doing(f, self.board(), Phase::Ready, seq![]);
        }
        self.control.top = false;
        self.control.left = if self.limits.dry_run {
            usize::MAX
        } else {
            self.ready.len()
        };
        self.control.moved = self.unfinished < before;
    }

    /// Takes the first edge that is ready.
    fn take_first(&mut self) -> (r: Step)
        requires
            old(self).well_formed(),
            old(self).control().left > 0,
        ensures
            final(self).well_formed(),
            final(self).field() == old(self).field(),
            final(self).limits() == old(self).limits(),
            (final(self).course(), r) == board::taken(old(self).field(), old(self).course()),
            r matches Step::Examine(k) ==> k < final(self).board().phase.len()
                && final(self).board().phase[k as int] == Phase::Held,
    {
        let ghost f = self.field();
        let ghost after = self.board();
        proof {
            assert(self.ready@ =~= board::doing(after, Phase::Ready));
        }
        match self.ready.pop(self.weights.as_slice()) {
            None => {
                proof {
                    assert(self.board() == after);
                    assert(self.ready@ =~= board::doing(after, Phase::Ready).difference(
                        Set::empty(),
                    ));
                }
                self.end_round()
            },
            Some(k) => {
                let ghost out = Set::<usize>::empty().insert(k);
                self.control.left = self.control.left - 1;
                proof {
                    assert(self.board() == after);
                    assert(board::doing(after, Phase::Ready).contains(k));
                    assert(self.ready@ =~= board::doing(after, Phase::Ready).difference(out));
                    assert(self.is_kept(out));
                }
                if self.failed[k] {
                    self.release(k, Ghost(out));
                    proof {
                        soundness::lemma_places_are_sound(f, after, k);
                        soundness::lemma_finished_is_sound(
                            f,
                            board::released(f, after, k),
                            k,
                            false,
                        );
                    }
                    self.finish(k, false, Ghost(out));
                    self.control.moved = true;
                    proof {
                        assert(self.ready@ =~= board::doing(
                            self.board(),
                            Phase::Ready,
                        ).difference(Set::empty()));
                    }
                    return Step::Again;
                }
                self.set_phase(k, Phase::Held, Ghost(out));
                proof {
                    soundness::lemma_remaining_same(
                        after.phase,
                        self.phase@,
                        after.phase.len() as int,
                    );
                }
                Step::Examine(k)
            },
        }
    }

    /// What the build does next.
    pub fn step(&mut self) -> (r: Step)
        requires
            old(self).well_formed(),
        ensures
            final(self).well_formed(),
            final(self).field() == old(self).field(),
            final(self).limits() == old(self).limits(),
            (final(self).course(), r) == board::next(
                old(self).field(),
                old(self).limits(),
                old(self).course(),
            ),
            r matches Step::Examine(k) ==> k < final(self).board().phase.len()
                && final(self).board().phase[k as int] == Phase::Held,
    {
        if self.control.top {
            if self.unfinished == 0 {
                return Step::Done;
            }
            self.begin_round();
            return Step::Again;
        }
        if self.control.left == 0 {
            return self.end_round();
        }
        let ghost f = self.field();
        let ghost b = self.board();
        if self.plan.is_some() && self.fresh.len() > 0 {
            proof {
                soundness::lemma_places_are_sound(f, b, 0);
                soundness::lemma_admitted_is_sound(f, board::reserved(f, b));
            }
            self.reserve(Ghost(Set::empty()));
            self.admit_pool_edges();
        }
        self.take_first()
    }

    /// Edge `k`, which was looked at, need not run.
    pub fn found_clean(&mut self, k: usize)
        requires
            old(self).well_formed(),
            k < old(self).board().phase.len(),
            old(self).board().phase[k as int] == Phase::Held,
        ensures
            final(self).well_formed(),
            final(self).field() == old(self).field(),
            final(self).limits() == old(self).limits(),
            final(self).course() == board::found_clean(old(self).field(), old(self).course(), k),
    {
        let ghost f = self.field();
        let ghost b = self.board();
        proof {
            soundness::lemma_places_are_sound(f, b, k);
            soundness::lemma_finished_is_sound(f, board::released(f, b, k), k, true);
        }
        self.release(k, Ghost(Set::empty()));
        self.finish(k, true, Ghost(Set::empty()));
        self.control.moved = true;
    }

    /// Makes edge `k`, which is being looked at, wait for a place in its pool.
    fn park_held(&mut self, k: usize, p: usize)
        requires
            old(self).is_kept(Set::empty()),
            k < old(self).phase@.len(),
            old(self).phase@[k as int] == Phase::Held,
            board::limit_of(old(self).field(), k) is Some,
            p < old(self).pools@.len(),
            old(self).pools@[p as int]@ == board::limit_of(old(self).field(), k)->Some_0.0,
        ensures
            final(self).is_kept(Set::empty()),
            final(self).field() == old(self).field(),
            final(self).limits() == old(self).limits(),
            final(self).control() == old(self).control(),
            final(self).board() == board::with_phase(old(self).board(), k, Phase::Parked),
    {
        let ghost f = self.field();
        let ghost b = self.board();
        let ghost before = *self;
        self.phase.set(k, Phase::Parked);
        self.waiting[p].push(self.weights.as_slice(), k);
        proof {
            let r = board::with_phase(b, k, Phase::Parked);
            assert(self.board() =~= r);
            lemma_one_more_waits(f, b, k, self.pools@);
            assert forall|i: int| 0 <= i < r.phase.len() && #[trigger] r.phase[i]
                == Phase::Parked implies board::limit_of(f, i as usize) is Some by {
                assert(i == k || b.phase[i] == Phase::Parked);
            }
            soundness::lemma_phases_are_sound(f, b, r);
            assert(self.ready@ =~= board::doing(r, Phase::Ready).difference(Set::empty()));
            assert forall|x: int| 0 <= x < self.waiting@.len() implies (
            #[trigger] self.waiting@[x]).well_formed(self.weights@) && self.waiting@[x]@
                == board::waiting(f, r, self.pools@[x]@) by {
                assert(before.waiting@[x]@ == board::waiting(f, b, self.pools@[x]@));
                if x != p {
                    assert(f.pools[x] != f.pools[p as int]);
                }
            }
        }
    }

    fn is_full(&self) -> (r: bool)
        ensures
            r == board::is_full(self.limits(), self.course().control.running as int),
    {
        match self.limits.jobs {
            Some(jobs) => self.control.running >= if jobs == 0 {
                1
            } else {
                jobs
            },
            None => false,
        }
    }

    /// Edge `k`, which was looked at, must run. Tells whether its command may be
    /// started.
    pub fn found_dirty(&mut self, k: usize) -> (r: Offer)
        requires
            old(self).well_formed(),
            old(self).board().plan is Some,
            k < old(self).board().phase.len(),
            old(self).board().phase[k as int] == Phase::Held,
        ensures
            final(self).well_formed(),
            final(self).field() == old(self).field(),
            final(self).limits() == old(self).limits(),
            (final(self).course(), r) == board::found_dirty(
                old(self).field(),
                old(self).limits(),
                old(self).course(),
                k,
            ),
            r == Offer::Start ==> final(self).board().phase[k as int] == Phase::Held,
    {
        let ghost f = self.field();
        let ghost b = self.board();
        if !self.reserved[k] {
            if let Some(p) = self.find_pool(k) {
                let ghost held = board::with_phase(b, k, Phase::Parked);
                self.park_held(k, p);
                proof {
                    soundness::lemma_remaining_same(b.phase, held.phase, b.phase.len() as int);
                    soundness::lemma_admitted_is_sound(f, held);
                }
                self.admit_pool_edges();
                if !self.limits.dry_run && self.reserved[k] && self.control.left < usize::MAX {
                    self.control.left = self.control.left + 1;
                }
                self.control.moved = true;
                return Offer::Parked;
            }
        }
        if self.control.stopped || self.is_full() {
            if !self.control.stopped {
                self.control.left = 0;
            }
            self.set_phase(k, Phase::Ready, Ghost(Set::empty()));
            proof {
                soundness::lemma_remaining_same(b.phase, self.phase@, b.phase.len() as int);
            }
            return Offer::PutBack;
        }
        Offer::Start
    }

    /// The command of edge `k` has been started.
    pub fn started(&mut self, k: usize)
        requires
            old(self).well_formed(),
            k < old(self).board().phase.len(),
            old(self).board().phase[k as int] == Phase::Held,
        ensures
            final(self).well_formed(),
            final(self).field() == old(self).field(),
            final(self).limits() == old(self).limits(),
            final(self).course() == board::started(old(self).limits(), old(self).course(), k),
    {
        let ghost b = self.board();
        proof {
            lemma_one_more_runs(b.phase, k as int, b.phase.len() as int);
            let after = b.phase.update(k as int, Phase::Running);
            soundness::lemma_remaining_bound(after, after.len() as int);
        }
        self.set_phase(k, Phase::Running, Ghost(Set::empty()));
        self.control.running = self.control.running + 1;
        if self.is_full() {
            self.control.left = 0;
        }
        self.control.moved = true;
    }

    /// The command of edge `k` could not be started now.
    pub fn put_back(&mut self, k: usize)
        requires
            old(self).well_formed(),
            k < old(self).board().phase.len(),
            old(self).board().phase[k as int] == Phase::Held,
        ensures
            final(self).well_formed(),
            final(self).field() == old(self).field(),
            final(self).limits() == old(self).limits(),
            final(self).course() == board::put_back(old(self).course(), k),
    {
        let ghost b = self.board();
        if self.control.running > 0 {
            self.control.left = 0;
        }
        self.set_phase(k, Phase::Ready, Ghost(Set::empty()));
        proof {
            soundness::lemma_remaining_same(b.phase, self.phase@, b.phase.len() as int);
        }
    }

    /// The command of edge `k` has ended.
    pub fn ended(&mut self, k: usize, ok: bool)
        requires
            old(self).well_formed(),
            k < old(self).board().phase.len(),
            old(self).board().phase[k as int] == Phase::Running,
        ensures
            final(self).well_formed(),
            final(self).field() == old(self).field(),
            final(self).limits() == old(self).limits(),
            final(self).course() == board::ended(
                old(self).field(),
                old(self).limits(),
                old(self).course(),
                k,
                ok,
            ),
    {
        let ghost f = self.field();
        let ghost b = self.board();
        proof {
            soundness::lemma_places_are_sound(f, b, k);
            soundness::lemma_finished_is_sound(f, board::released(f, b, k), k, ok);
        }
        self.release(k, Ghost(Set::empty()));
        self.finish(k, ok, Ghost(Set::empty()));
        self.control.running = self.control.running - 1;
        if !ok {
            self.control.failures = self.control.failures.saturating_add(1);
            if self.limits.failures_allowed != 0 && self.control.failures
                >= self.limits.failures_allowed {
                self.control.stopped = true;
            }
        }
    }

    /// Makes known which edges will run.
    pub fn adopt_plan(&mut self, plan: Vec<bool>)
        requires
            old(self).well_formed(),
            plan@.len() == old(self).board().phase.len(),
        ensures
            final(self).well_formed(),
            final(self).field() == old(self).field(),
            final(self).limits() == old(self).limits(),
            final(self).control() == old(self).control(),
            final(self).board() == (Board { plan: Some(plan@), ..old(self).board() }),
    {
        let ghost f = self.field();
        let ghost b = self.board();
        self.plan = Some(plan);
        proof {
            lemma_same_phases(f, b, self.board(), self.pools@);
            lemma_plan_is_sound(f, b, self.board());
        }
    }

    /// Whether it is known which edges will run.
    pub fn has_plan(&self) -> (r: bool)
        ensures
            r == self.board().plan is Some,
    {
        self.plan.is_some()
    }

    /// Whether edges of the build are in pools that have limits.
    pub fn has_limited_pools(&self) -> (r: bool)
        ensures
            r == (self.field().pools.len() > 0),
    {
        self.pools.len() > 0
    }

    /// How many commands run.
    pub fn running(&self) -> (r: usize)
        ensures
            r == self.control().running,
    {
        self.control.running
    }

    /// Whether no more commands are to be started.
    pub fn is_stopped(&self) -> (r: bool)
        ensures
            r == self.control().stopped,
    {
        self.control.stopped
    }
}

pub proof fn lemma_plan_is_sound(f: Field, b: Board, r: Board)
    requires
        soundness::is_sound(f, b),
        r == (Board { plan: r.plan, ..b }),
        r.plan matches Some(plan) ==> plan.len() == b.phase.len(),
    ensures
        soundness::is_sound(f, r),
{
    assert forall|d: usize| d < f.m.edges.len() implies #[trigger] r.failed[d as int]
        == soundness::is_spoiled(f, r, d) by {
        assert(b.failed[d as int] == soundness::is_spoiled(f, b, d));
        assert forall|p: int| #[trigger] soundness::spoils(f, r, p, d) == soundness::spoils(
            f,
            b,
            p,
            d,
        ) by {}
        if soundness::is_spoiled(f, b, d) {
            let p = choose|p: int| 0 <= p < f.told.len() && #[trigger] soundness::spoils(f, b, p, d);
            assert(soundness::spoils(f, r, p, d));
        }
    }
}

} // verus!
