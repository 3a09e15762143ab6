//! Which edges must run by what they declare alone, without regard to inputs that
//! they found when they last ran.
use crate::build_log;
use crate::build_log::BuildLog;
use crate::build_log::BuildLogEntry;
use crate::freshness;
use crate::freshness::has_edge;
use crate::freshness::latest;
use crate::freshness::source_at;
use crate::freshness::Files;
use crate::freshness::World;
use crate::manifest;
use crate::manifest::Edge;
use crate::manifest::EdgeView;
use crate::manifest::Manifest;
use crate::manifest::ManifestView;
use crate::policy;
use crate::policy::truthy;
use crate::render::render_binding;
use crate::render::render_unescaped_binding;
use crate::staleness;
use crate::staleness::has_entries;
use crate::staleness::is_empty;
use crate::staleness::log_command;
use crate::staleness::oldest_output;
use crate::text::same_str;
use vstd::prelude::*;
use vstd::string::*;

verus! {

/// What decides whether an edge must run by what it declares.
#[verifier::ext_equal]
pub struct Basis {
    pub world: World,
    pub log: Map<Seq<char>, BuildLogEntry>,
    pub windows: bool,
}

/// What is known of edges that have been looked at, and of the one that is being
/// looked at.
#[verifier::ext_equal]
pub struct Sweep {
    pub done: Map<usize, bool>,
    pub dirty: bool,
    pub newest: u128,
}

/// Whether an edge must run whatever its inputs are: a phony edge that has none,
/// and another with an output that is not there.
pub open spec fn runs_anyway(b: Basis, e: EdgeView) -> bool {
    if e.rule == "phony"@ {
        manifest::inputs_of(e).len() == 0
    } else {
        staleness::oldest_of(b.world.times, manifest::outputs_of(e), 0, u128::MAX) is Err
    }
}

/// Whether an edge, which is not phony, must run because its newest input is of
/// time `newest` or because its command is another.
pub open spec fn runs_by_log(m: ManifestView, b: Basis, e: EdgeView, newest: u128) -> bool {
    let outputs = manifest::outputs_of(e);
    let oldest = staleness::oldest_of(b.world.times, outputs, 0, u128::MAX);
    let hash = build_log::command_hash(staleness::logged_command(m, e, b.windows));
    let generator = policy::is_on(staleness::quoted(m, e, "generator"@, b.windows));
    e.rule != "phony"@ && ((oldest is Ok && newest > oldest->Ok_0 && !staleness::goes_by_log(
        m,
        e,
        b.log,
        b.windows,
    )) || build_log::is_changed(b.log, outputs, hash, generator) || build_log::first_older(
        b.log,
        outputs,
        newest as nat,
        0,
    ) is Some)
}

/// Whether edge `k` must run, and what is known then. An edge that is being looked
/// at counts as one that must; `open` are those.
pub open spec fn visited(
    m: ManifestView,
    b: Basis,
    k: usize,
    open: Seq<usize>,
    done: Map<usize, bool>,
) -> (Map<usize, bool>, bool)
    decreases m.edges.len() - open.len(), 0int,
{
    if open.contains(k) || open.len() >= m.edges.len() {
        (done, true)
    } else if done.contains_key(k) {
        (done, done[k])
    } else {
        let e = m.edges[k as int];
        let start = Sweep { done, dirty: runs_anyway(b, e), newest: 0 };
        let swept = swept(m, b, k, 0, open.push(k), start);
        let dirty = swept.dirty || runs_by_log(m, b, e, swept.newest);
        (swept.done.insert(k, dirty), dirty)
    }
}

/// What is known once the sources of edge `k`, from source `j` on, have been
/// looked at. A source that has no time makes the edge run, and so does one whose
/// edge must run.
pub open spec fn swept(
    m: ManifestView,
    b: Basis,
    k: usize,
    j: int,
    open: Seq<usize>,
    s: Sweep,
) -> Sweep
    decreases
            m.edges.len() - open.len(),
            freshness::sources(m.edges[k as int]).len() - j + 1,
{
    let list = freshness::sources(m.edges[k as int]);
    if j < 0 || j >= list.len() {
        s
    } else {
        let (done, made) = if b.world.outputs.contains_key(list[j]) {
            visited(m, b, b.world.outputs[list[j]], open, s.done)
        } else {
            (s.done, false)
        };
        let next = match freshness::time(b.world, list[j], seq![]) {
            Ok(t) => Sweep {
                done,
                dirty: s.dirty || made,
                newest: freshness::later(s.newest, t),
            },
            Err(_) => Sweep { done, dirty: true, newest: s.newest },
        };
        swept(m, b, k, j + 1, open, next)
    }
}

/// Whether an edge finds inputs when it runs.
pub open spec fn finds_inputs(m: ManifestView, e: EdgeView, windows: bool) -> bool {
    staleness::quoted(m, e, "deps"@, windows).len() > 0 || staleness::plain(
        m,
        e,
        "depfile"@,
    ).len() > 0
}

/// What is known once those of the first `n` edges that find inputs have been
/// looked at.
pub open spec fn all_visited(m: ManifestView, b: Basis, n: int) -> Map<usize, bool>
    decreases n,
{
    if n <= 0 {
        Map::empty()
    } else {
        let before = all_visited(m, b, n - 1);
        if finds_inputs(m, m.edges[n - 1], b.windows) {
            visited(m, b, (n - 1) as usize, seq![], before).0
        } else {
            before
        }
    }
}

/// Which edges must run by what they declare. Only edges that find inputs are
/// asked about, and those that they are made from.
pub open spec fn declared_dirt(m: ManifestView, b: Basis) -> Seq<bool> {
    let done = all_visited(m, b, m.edges.len() as int);
    Seq::new(m.edges.len(), |k: int| done.contains_key(k as usize) && done[k as usize])
}

/// What is known of each edge.
pub open spec fn known(done: Seq<Option<bool>>) -> Map<usize, bool> {
    Map::new(
        |k: usize| k < done.len() && done[k as int] is Some,
        |k: usize| done[k as int]->Some_0,
    )
}

/// What decides whether an edge must run by what it declares.
pub struct Declarations<'a> {
    pub files: Files<'a>,
    pub log: &'a BuildLog,
    pub windows: bool,
}

impl<'a> Declarations<'a> {
    pub open spec fn view(&self) -> Basis {
        Basis { world: self.files@, log: self.log@, windows: self.windows }
    }

    fn must_run_anyway(&self, edge: &Edge) -> (r: bool)
        ensures
            r == runs_anyway(self@, edge.deep_view()),
    {
        if same_str(edge.rule.as_str(), "phony") {
            edge.explicit_inputs.len() == 0 && edge.implicit_inputs.len() == 0
                && edge.order_only_inputs.len() == 0
        } else {
            oldest_output(&self.files, edge).is_err()
        }
    }

    fn must_run_by_log(&self, edge: &Edge, newest: u128) -> (r: bool)
        ensures
            r == runs_by_log(self.files.manifest.deep_view(), self@, edge.deep_view(), newest),
    {
        let manifest: &Manifest = self.files.manifest;
        if same_str(edge.rule.as_str(), "phony") {
            return false;
        }
        if let Ok(oldest) = oldest_output(&self.files, edge) {
            if newest > oldest {
                let restat: String = render_binding(manifest, edge, "restat", self.windows);
                if !(truthy(restat.as_str()) && has_entries(self.log, edge)) {
                    return true;
                }
            }
        }
        let command: String = log_command(manifest, edge, self.windows);
        let generator: String = render_binding(manifest, edge, "generator", self.windows);
        self.log.command_changed(edge, command.as_str(), truthy(generator.as_str()))
            || self.log.recorded_mtime_dirty(edge, newest).is_some()
    }

    fn visit(&self, k: usize, open: &mut Vec<usize>, done: &mut Vec<Option<bool>>) -> (r: bool)
        requires
            freshness::is_world(self@.world),
            k < self@.world.edges.len(),
            old(done)@.len() == self@.world.edges.len(),
            freshness::are_edges(old(open)@, self@.world.edges.len()),
        ensures
            final(open)@ == old(open)@,
            final(done)@.len() == old(done)@.len(),
            (known(final(done)@), r) == visited(
                self.files.manifest.deep_view(),
                self@,
                k,
                old(open)@,
                known(old(done)@),
            ),
        decreases self@.world.edges.len() - old(open)@.len(),
    {
        let manifest: &Manifest = self.files.manifest;
        let ghost m = manifest.deep_view();
        let ghost b = self@;
        let ghost outer = open@;
        let ghost before = known(done@);
        proof {
            assert(m.edges == b.world.edges);
            freshness::lemma_few_edges(outer, m.edges.len());
        }
        if has_edge(open, k) {
            return true;
        }
        if let Some(dirty) = done[k] {
            return dirty;
        }
        let edge: &Edge = &manifest.edges[k];
        proof {
            assert(m.edges[k as int] == edge.deep_view());
        }
        open.push(k);
        let ghost inner = open@;
        let mut dirty: bool = self.must_run_anyway(edge);
        let mut newest: u128 = 0;
        let mut j: usize = 0;
        let ghost goal = swept(m, b, k, 0, inner, Sweep { done: before, dirty, newest });
        loop
            invariant_except_break
                swept(m, b, k, j as int, inner, Sweep { done: known(done@), dirty, newest })
                    == goal,
            invariant
                m == manifest.deep_view(),
                manifest == self.files.manifest,
                b == self@,
                m.edges == b.world.edges,
                freshness::is_world(b.world),
                k < m.edges.len(),
                m.edges[k as int] == edge.deep_view(),
                outer == old(open)@,
                outer.len() < m.edges.len(),
                inner == outer.push(k),
                open@ == inner,
                freshness::are_edges(inner, m.edges.len()),
                done@.len() == m.edges.len(),
            ensures
                goal == (Sweep { done: known(done@), dirty, newest }),
            decreases freshness::sources(m.edges[k as int]).len() - j,
        {
            match source_at(edge, j) {
                None => {
                    break;
                },
                Some(path) => {
                    if let Some(p) = self.files.producer(path) {
                        if self.visit(p, open, done) {
                            dirty = true;
                        }
                    }
                    match self.files.virtual_mtime(path) {
                        Ok(t) => {
                            newest = latest(newest, t);
                        },
                        Err(_) => {
                            dirty = true;
                        },
                    }
                    j += 1;
                },
            }
        }
        if !dirty {
            dirty = self.must_run_by_log(edge, newest);
        }
        let ghost last = done@;
        done.set(k, Some(dirty));
        open.pop();
        proof {
            assert(open@ =~= outer);
            assert(known(done@) =~= known(last).insert(k, dirty));
        }
        dirty
    }

    fn finds(&self, edge: &Edge) -> (r: bool)
        ensures
            r == finds_inputs(self.files.manifest.deep_view(), edge.deep_view(), self.windows),
    {
        let deps: String = render_binding(self.files.manifest, edge, "deps", self.windows);
        if !is_empty(deps.as_str()) {
            return true;
        }
        let depfile: String = render_unescaped_binding(self.files.manifest, edge, "depfile");
        !is_empty(depfile.as_str())
    }

    /// Which edges must run by what they declare. Only edges that find inputs are
    /// asked about, and those that they are made from.
    pub fn declared_dirty_edges(&self) -> (r: Vec<bool>)
        requires
            freshness::is_world(self@.world),
        ensures
            r@ == declared_dirt(self.files.manifest.deep_view(), self@),
    {
        let manifest: &Manifest = self.files.manifest;
        let ghost m = manifest.deep_view();
        let ghost b = self@;
        let n: usize = manifest.edges.len();
        let mut done: Vec<Option<bool>> = Vec::new();
        while done.len() < n
            invariant
                done@.len() <= n,
                forall|k: int| 0 <= k < done@.len() ==> #[trigger] done@[k] is None,
            decreases n - done@.len(),
        {
            done.push(None);
        }
        let mut open: Vec<usize> = Vec::new();
        proof {
            assert(open@ =~= seq![]);
            assert(known(done@) =~= Map::<usize, bool>::empty());
        }
        let mut i: usize = 0;
        while i < n
            invariant
                m == manifest.deep_view(),
                manifest == self.files.manifest,
                b == self@,
                m.edges == b.world.edges,
                freshness::is_world(b.world),
                n == m.edges.len(),
                m.edges.len() == manifest.edges@.len(),
                i <= n,
                open@ == Seq::<usize>::empty(),
                done@.len() == n,
                known(done@) == all_visited(m, b, i as int),
            decreases n - i,
        {
            proof {
                assert(m.edges[i as int] == manifest.edges@[i as int].deep_view());
            }
            if self.finds(&manifest.edges[i]) {
                self.visit(i, &mut open, &mut done);
            }
            i += 1;
        }
        let mut r: Vec<bool> = Vec::new();
        while r.len() < n
            invariant
                n == m.edges.len(),
                done@.len() == n,
                known(done@) == all_visited(m, b, n as int),
                r@.len() <= n,
                forall|k: int| 0 <= k < r@.len() ==> #[trigger] r@[k] == declared_dirt(m, b)[k],
            decreases n - r@.len(),
        {
            let dirty: bool = match done[r.len()] {
                Some(dirty) => dirty,
                None => false,
            };
            proof {
                assert(known(done@).contains_key(r@.len() as usize) <==> done@[r@.len() as int]
                    is Some);
            }
            r.push(dirty);
        }
        proof {
            assert(r@ =~= declared_dirt(m, b));
        }
        r
    }
}

} // verus!
