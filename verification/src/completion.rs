//! What is written down of an edge once its command has run.
use crate::build_log;
use crate::build_log::BuildLogEntry;
use crate::freshness;
use crate::manifest;
use crate::manifest::ManifestView;
use crate::policy;
use crate::staleness;
use crate::staleness::Situation;
use vstd::prelude::*;

verus! {

/// What is known of a command that has run: whether its edge may leave outputs as
/// they are, whether it is a generator, when it began, and, for each output, its
/// time before, its time now, and its time in the log.
pub struct Run {
    pub restat: bool,
    pub generator: bool,
    pub start: u128,
    pub before: Vec<Option<u128>>,
    pub after: Vec<Option<u128>>,
    pub logged: Vec<Option<u64>>,
}

#[verifier::ext_equal]
pub struct RunView {
    pub restat: bool,
    pub generator: bool,
    pub start: u128,
    pub before: Seq<Option<u128>>,
    pub after: Seq<Option<u128>>,
    pub logged: Seq<Option<u64>>,
}

/// Whether the outputs have their times.
pub open spec fn is_run(r: RunView) -> bool {
    r.before.len() == r.after.len() && r.logged.len() == r.after.len()
}

/// Whether output `i` was left as it was.
pub open spec fn is_left(r: RunView, i: int) -> bool {
    r.restat && r.before[i] == r.after[i]
}

/// The newest of the first `n` outputs that are there.
pub open spec fn newest_output(after: Seq<Option<u128>>, n: int) -> Option<u128>
    decreases n,
{
    if n <= 0 {
        None
    } else {
        match (newest_output(after, n - 1), after[n - 1]) {
            (Some(t), Some(u)) => Some(freshness::later(t, u)),
            (Some(t), None) => Some(t),
            (None, u) => u,
        }
    }
}

/// The time to be written to the log: when the command began, or, for an edge that
/// may leave outputs as they are and has made all anew, and for a generator, the
/// newest output.
pub open spec fn log_mtime(r: RunView) -> u128 {
    let left = exists|i: int| 0 <= i < r.after.len() && #[trigger] is_left(r, i);
    match newest_output(r.after, r.after.len() as int) {
        Some(t) => if (r.start == 0 || r.restat || r.generator) && !left {
            t
        } else {
            r.start
        },
        None => r.start,
    }
}

/// The time of output `i` for the rest of the build. An output that the command did
/// not make counts as newer than everything; one that was not there before either,
/// of an edge that may leave outputs as they are, has its time in the log.
pub open spec fn output_time(r: RunView, i: int) -> u128 {
    match r.after[i] {
        Some(t) => t,
        None => if r.restat && r.before[i] is None {
            match r.logged[i] {
                Some(t) => t as u128,
                None => 0,
            }
        } else {
            u128::MAX
        },
    }
}

impl Run {
    pub open spec fn view(&self) -> RunView {
        RunView {
            restat: self.restat,
            generator: self.generator,
            start: self.start,
            before: self.before@,
            after: self.after@,
            logged: self.logged@,
        }
    }

    /// Whether output `i` was left as it was.
    pub fn is_left_alone(&self, i: usize) -> (r: bool)
        requires
            is_run(self@),
            i < self@.after.len(),
        ensures
            r == is_left(self@, i as int),
    {
        self.restat && match (self.before[i], self.after[i]) {
            (Some(t), Some(u)) => t == u,
            (None, None) => true,
            (Some(_), None) => false,
            (None, Some(_)) => false,
        }
    }

    /// The time to be written to the log.
    pub fn record_mtime(&self) -> (r: u128)
        requires
            is_run(self@),
        ensures
            r == log_mtime(self@),
    {
        let ghost run = self@;
        let mut newest: Option<u128> = None;
        let mut left: bool = false;
        let mut i: usize = 0;
        while i < self.after.len()
            invariant
                run == self@,
                is_run(run),
                i <= run.after.len(),
                newest == newest_output(run.after, i as int),
                left == exists|x: int| 0 <= x < i && #[trigger] is_left(run, x),
            decreases run.after.len() - i,
        {
            let ghost before = left;
            newest = match (newest, self.after[i]) {
                (Some(t), Some(u)) => Some(freshness::latest(t, u)),
                (Some(t), None) => Some(t),
                (None, u) => u,
            };
            if self.is_left_alone(i) {
                left = true;
            }
            proof {
                if before {
                    let x = choose|x: int| 0 <= x < i && #[trigger] is_left(run, x);
                    assert(is_left(run, x));
                }
            }
            i += 1;
        }
        match newest {
            Some(t) => {
                if (self.start == 0 || self.restat || self.generator) && !left {
                    t
                } else {
                    self.start
                }
            },
            None => self.start,
        }
    }

    /// The time of output `i` for the rest of the build.
    pub fn time_of_output(&self, i: usize) -> (r: u128)
        requires
            is_run(self@),
            i < self@.after.len(),
        ensures
            r == output_time(self@, i as int),
    {
        match self.after[i] {
            Some(t) => t,
            None => {
                if self.restat && self.before[i].is_none() {
                    match self.logged[i] {
                        Some(t) => t as u128,
                        None => 0,
                    }
                } else {
                    u128::MAX
                }
            },
        }
    }
}

/// Whether an input is there, was not made anew, and is no newer than `limit` and
/// the outputs of an edge.
pub open spec fn is_settled_input(
    s: Situation,
    outputs: Seq<Seq<char>>,
    limit: u64,
    path: Seq<char>,
) -> bool {
    &&& !staleness::is_lost(s, path)
    &&& !staleness::is_remade(s, path)
    &&& staleness::time_of(s, path) <= limit
    &&& forall|i: int|
        0 <= i < outputs.len() ==> staleness::time_of(s, path) <= s.world.times[#[trigger] outputs[i]]
}

/// An edge whose command has been written to the log need not run again as long as
/// its outputs are there and no input is newer than they are or than the log says.
pub proof fn law_recorded_edge_is_clean(
    m: ManifestView,
    s: Situation,
    k: usize,
    log: Map<Seq<char>, BuildLogEntry>,
    entry: BuildLogEntry,
)
    requires
        ({
            let e = m.edges[k as int];
            let outputs = manifest::outputs_of(e);
            &&& entry.command_hash == build_log::command_hash(
                staleness::logged_command(m, e, s.windows),
            )
            &&& s.log == build_log::with_entries(log, outputs, entry, outputs.len() as int)
            &&& forall|i: int|
                0 <= i < outputs.len() ==> s.world.times.contains_key(#[trigger] outputs[i])
            &&& forall|j: int|
                0 <= j < freshness::sources(e).len() ==> is_settled_input(
                    s,
                    outputs,
                    entry.mtime,
                    #[trigger] freshness::sources(e)[j],
                )
            &&& forall|j: int|
                0 <= j < s.discovered[k as int].len() ==> is_settled_input(
                    s,
                    outputs,
                    entry.mtime,
                    #[trigger] s.discovered[k as int][j],
                )
            &&& !s.missing[k as int]
        }),
    ensures
        !staleness::must_run(m, s, k),
        staleness::verdict(m, s, k) matches Ok(v) ==> !v.dirty,
{
    let e = m.edges[k as int];
    let outputs = manifest::outputs_of(e);
    let sources = freshness::sources(e);
    let found = s.discovered[k as int];
    let oldest = staleness::compared(m, s, e);
    let generator = policy::is_on(staleness::quoted(m, e, "generator"@, s.windows));
    build_log::law_recorded_command_is_unchanged(log, outputs, entry, generator);
    build_log::lemma_with_entries(log, outputs, entry, outputs.len() as int);
    staleness::lemma_oldest(s.world.times, outputs, 0, u128::MAX);
    assert forall|path: Seq<char>| #[trigger]
        is_settled_input(s, outputs, entry.mtime, path) implies !staleness::forces(
        s,
        path,
        oldest,
    ) && !staleness::is_logged_before(s, outputs, path) by {}
    if staleness::any_forces(s, sources, 0, oldest) {
        let j = choose|j: int|
            0 <= j < sources.len() && staleness::forces(s, #[trigger] sources[j], oldest);
        assert(is_settled_input(s, outputs, entry.mtime, sources[j]));
    }
    if staleness::any_found_forces(s, found, 0, oldest) {
        let j = choose|j: int|
            0 <= j < found.len() && (staleness::is_lost(s, #[trigger] found[j])
                || staleness::forces(s, found[j], oldest));
        assert(is_settled_input(s, outputs, entry.mtime, found[j]));
    }
    if staleness::verdict(m, s, k) is Ok {
        staleness::law_edge_runs_exactly_where_it_must(m, s, k);
    }
}

/// Whether an output is removed when its command is interrupted: one whose time has
/// changed, and any where there is a depfile.
pub fn is_spoiled(has_depfile: bool, before: Option<u128>, now: Option<u128>) -> (r: bool)
    ensures
        r == (has_depfile || before != now),
{
    has_depfile || match (before, now) {
        (Some(a), Some(b)) => a != b,
        (None, None) => false,
        _ => true,
    }
}

} // verus!
