//! Which edges a build will run, as far as can be told before it begins, and
//! which sources it would miss.
use crate::collections::map_clone;
use crate::collections::map_insert;
use crate::collections::set_new;
use crate::expand;
use crate::freshness;
use crate::freshness::source_at;
use crate::freshness::Files;
use crate::freshness::World;
use crate::manifest;
use crate::manifest::Edge;
use crate::manifest::EdgeView;
use crate::manifest::Manifest;
use crate::manifest::ManifestView;
use crate::pools;
use crate::spell;
use crate::staleness;
use crate::staleness::Evaluation;
use crate::staleness::Situation;
use crate::text;
use crate::text::same_str;
use rapidhash::RapidHashMap;
use rapidhash::RapidHashSet;
use vstd::prelude::*;
use vstd::string::*;

verus! {

/// The times once the first `n` of `paths` are files of time `t`.
pub open spec fn marked(
    times: Map<Seq<char>, u128>,
    paths: Seq<Seq<char>>,
    t: u128,
    n: int,
) -> Map<Seq<char>, u128>
    decreases n,
{
    if n <= 0 {
        times
    } else {
        marked(times, paths, t, n - 1).insert(paths[n - 1], t)
    }
}

/// Takes the outputs of an edge for files of time `t`.
pub fn mark_edge(times: &mut RapidHashMap<String, u128>, edge: &Edge, t: u128)
    ensures
        final(times).deep_view() == marked(
            old(times).deep_view(),
            manifest::outputs_of(edge.deep_view()),
            t,
            manifest::outputs_of(edge.deep_view()).len() as int,
        ),
{
    let outputs: Vec<&str> = edge.outputs();
    let ghost list = manifest::outputs_of(edge.deep_view());
    let ghost start = times.deep_view();
    let mut i: usize = 0;
    while i < outputs.len()
        invariant
            i <= outputs@.len(),
            list == manifest::outputs_of(edge.deep_view()),
            spell::views(outputs@) == list,
            start == old(times).deep_view(),
            times.deep_view() == marked(start, list, t, i as int),
        decreases outputs@.len() - i,
    {
        proof {
            assert(list[i as int] == outputs@[i as int]@);
        }
        map_insert(times, outputs[i].to_owned(), t);
        i += 1;
    }
}

/// Which edges will run, and the times as they will be.
#[verifier::ext_equal]
pub struct Plan {
    pub dirty: Seq<bool>,
    pub times: Map<Seq<char>, u128>,
}

/// Whether an input of a phony edge will be made or is lost.
pub open spec fn stirs(w: World, dirty: Seq<bool>, path: Seq<char>) -> bool {
    if w.outputs.contains_key(path) {
        dirty[w.outputs[path] as int]
    } else {
        !w.times.contains_key(path)
    }
}

/// Whether an input that an edge is made from will be made or is lost.
pub open spec fn is_stirred_in(w: World, dirty: Seq<bool>, e: EdgeView) -> bool {
    exists|i: int|
        0 <= i < freshness::sources(e).len() && stirs(w, dirty, #[trigger] freshness::sources(e)[i])
}

/// What a build will know when it comes to an edge behind those of the plan.
pub open spec fn situation_in(s: Situation, p: Plan) -> Situation {
    Situation {
        world: World { times: p.times, ..s.world },
        ran: p.dirty,
        cleaned: Set::empty(),
        ..s
    }
}

/// The plan once edge `k` is in it. Phony edges are left out of account unless
/// `phonies` says otherwise; an edge that cannot be looked at will run.
pub open spec fn with_edge(m: ManifestView, s: Situation, phonies: bool, k: usize, p: Plan) -> Plan {
    let e = m.edges[k as int];
    if e.rule == "phony"@ {
        if phonies {
            Plan {
                dirty: p.dirty.update(
                    k as int,
                    is_stirred_in(World { times: p.times, ..s.world }, p.dirty, e),
                ),
                ..p
            }
        } else {
            p
        }
    } else {
        let dirty = match staleness::evaluated(m, situation_in(s, p), k) {
            Ok(e) => e.dirty,
            Err(_) => true,
        };
        Plan {
            dirty: p.dirty.update(k as int, dirty),
            times: if dirty {
                marked(
                    p.times,
                    manifest::outputs_of(e),
                    u128::MAX,
                    manifest::outputs_of(e).len() as int,
                )
            } else {
                p.times
            },
        }
    }
}

/// The plan with the first `n` edges of `list`.
pub open spec fn plan(
    m: ManifestView,
    s: Situation,
    phonies: bool,
    list: Seq<usize>,
    n: int,
) -> Plan
    decreases n,
{
    if n <= 0 {
        Plan { dirty: Seq::new(m.edges.len(), |i: int| false), times: s.world.times }
    } else {
        with_edge(m, s, phonies, list[n - 1], plan(m, s, phonies, list, n - 1))
    }
}

fn is_stirred(files: &Files<'_>, edge: &Edge, dirty: &Vec<bool>) -> (r: bool)
    requires
        freshness::is_world(files@),
        dirty@.len() == files@.edges.len(),
        manifest::inputs_of(edge.deep_view()).len() <= usize::MAX,
    ensures
        r == is_stirred_in(files@, dirty@, edge.deep_view()),
{
    let ghost list = freshness::sources(edge.deep_view());
    let mut i: usize = 0;
    loop
        invariant
            freshness::is_world(files@),
            dirty@.len() == files@.edges.len(),
            list == freshness::sources(edge.deep_view()),
            list.len() <= usize::MAX,
            i <= list.len(),
            forall|x: int| 0 <= x < i ==> !stirs(files@, dirty@, #[trigger] list[x]),
        decreases list.len() - i,
    {
        match source_at(edge, i) {
            None => {
                return false;
            },
            Some(path) => {
                let stirred: bool = match files.producer(path) {
                    Some(k) => dirty[k],
                    None => files.file_time(path).is_none(),
                };
                if stirred {
                    assert(stirs(files@, dirty@, list[i as int]));
                    return true;
                }
                i += 1;
            },
        }
    }
}

impl<'a> Evaluation<'a> {
    /// Which of the edges of `closure` a build will run. The edges come behind
    /// those that they wait for.
    pub fn initially_dirty_edges(&self, closure: &[usize], track_phony: bool) -> (r: Vec<bool>)
        requires
            staleness::is_situation(self@),
            forall|i: int|
                0 <= i < closure@.len() ==> (#[trigger] closure@[i]) < self@.world.edges.len(),
        ensures
            r@ == plan(
                self.files.manifest.deep_view(),
                self@,
                track_phony,
                closure@,
                closure@.len() as int,
            ).dirty,
    {
        let manifest: &Manifest = self.files.manifest;
        let ghost m = manifest.deep_view();
        let ghost s = self@;
        let n: usize = manifest.edges.len();
        let mut dirty: Vec<bool> = Vec::new();
        while dirty.len() < n
            invariant
                n == manifest.edges@.len(),
                dirty@.len() <= n,
                forall|k: int| 0 <= k < dirty@.len() ==> !(#[trigger] dirty@[k]),
            decreases n - dirty@.len(),
        {
            dirty.push(false);
        }
        let mut times: RapidHashMap<String, u128> = map_clone(self.files.times);
        let cleaned: RapidHashSet<String> = set_new();
        let mut i: usize = 0;
        proof {
            assert(dirty@ =~= plan(m, s, track_phony, closure@, 0).dirty);
        }
        while i < closure.len()
            invariant
                m == manifest.deep_view(),
                s == self@,
                manifest == self.files.manifest,
                m.edges == s.world.edges,
                m.edges.len() == manifest.edges@.len(),
                staleness::is_situation(s),
                cleaned.deep_view() == Set::<Seq<char>>::empty(),
                i <= closure@.len(),
                forall|i: int|
                    0 <= i < closure@.len() ==> (#[trigger] closure@[i]) < s.world.edges.len(),
                dirty@.len() == m.edges.len(),
                (Plan { dirty: dirty@, times: times.deep_view() }) == plan(
                    m,
                    s,
                    track_phony,
                    closure@,
                    i as int,
                ),
            decreases closure@.len() - i,
        {
            let k: usize = closure[i];
            let edge: &Edge = &manifest.edges[k];
            let ghost p = plan(m, s, track_phony, closure@, i as int);
            proof {
                assert(m.edges[k as int] == edge.deep_view());
            }
            let files: Files<'_> = Files {
                manifest,
                outputs: self.files.outputs,
                times: &times,
            };
            if same_str(edge.rule.as_str(), "phony") {
                if track_phony {
                    let stirred: bool = is_stirred(&files, edge, &dirty);
                    dirty.set(k, stirred);
                }
            } else {
                let evaluation: Evaluation<'_> = Evaluation {
                    files,
                    log: self.log,
                    discovered: self.discovered,
                    missing: self.missing,
                    errors: self.errors,
                    ran: &dirty,
                    cleaned: &cleaned,
                    windows: self.windows,
                };
                proof {
                    assert(evaluation@ =~= situation_in(s, p));
                }
                let runs: bool = match evaluation.evaluate_edge(k) {
                    Ok(found) => found.dirty,
                    Err(_) => true,
                };
                dirty.set(k, runs);
                if runs {
                    mark_edge(&mut times, edge, u128::MAX);
                }
            }
            i += 1;
        }
        dirty
    }
}

/// What is made from something that will be made will itself be made.
pub proof fn law_dirt_is_passed_on(
    m: ManifestView,
    s: Situation,
    phonies: bool,
    k: usize,
    p: Plan,
    i: int,
)
    requires
        k < m.edges.len(),
        p.dirty.len() == m.edges.len(),
        m.edges[k as int].rule != "phony"@ || phonies,
        0 <= i < freshness::sources(m.edges[k as int]).len(),
        s.world.outputs.contains_key(freshness::sources(m.edges[k as int])[i]),
        p.dirty[s.world.outputs[freshness::sources(m.edges[k as int])[i]] as int],
    ensures
        with_edge(m, s, phonies, k, p).dirty[k as int],
{
    let e = m.edges[k as int];
    let path = freshness::sources(e)[i];
    let now = situation_in(s, p);
    if e.rule == "phony"@ {
        assert(stirs(World { times: p.times, ..s.world }, p.dirty, path));
    } else if staleness::evaluated(m, now, k) is Ok {
        staleness::law_edge_runs_exactly_where_it_must(m, now, k);
        assert(staleness::is_remade(now, path));
        assert(staleness::forces(
            now,
            freshness::sources(e)[i],
            staleness::compared(m, now, e),
        ));
        assert(staleness::any_forces(
            now,
            freshness::sources(e),
            0,
            staleness::compared(m, now, e),
        ));
    }
}

/// The first of `list`, from `i` on, that is neither there nor an output.
pub open spec fn first_lost(w: World, list: Seq<Seq<char>>, i: int) -> Option<Seq<char>>
    decreases list.len() - i,
{
    if i < 0 || i >= list.len() {
        None
    } else if !w.outputs.contains_key(list[i]) && !w.times.contains_key(list[i]) {
        Some(list[i])
    } else {
        first_lost(w, list, i + 1)
    }
}

/// What is said of an input of an edge that is not there and that nothing makes.
pub open spec fn needed(e: EdgeView, path: Seq<char>) -> Seq<char> {
    let outputs = manifest::outputs_of(e);
    "'"@ + path + "', needed by '"@ + (if outputs.len() > 0 {
        outputs[0]
    } else {
        path
    }) + "', missing and no known rule to make it"@
}

/// What is said of the first input, of the edges of `list` from `i` on, that is
/// not there and that nothing makes. What only comes before a phony edge is left
/// out of account.
pub open spec fn lost_source(m: ManifestView, w: World, list: Seq<usize>, i: int) -> Option<
    Seq<char>,
>
    decreases list.len() - i,
{
    if i < 0 || i >= list.len() {
        None
    } else {
        let e = m.edges[list[i] as int];
        if first_lost(w, freshness::sources(e), 0) is Some {
            Some(needed(e, first_lost(w, freshness::sources(e), 0)->Some_0))
        } else if e.rule != "phony"@ && first_lost(w, e.order_only_inputs, 0) is Some {
            Some(needed(e, first_lost(w, e.order_only_inputs, 0)->Some_0))
        } else {
            lost_source(m, w, list, i + 1)
        }
    }
}

/// Whether an edge will run or waits for one that will.
pub open spec fn is_in_motion(w: World, dirty: Seq<bool>, e: EdgeView, k: usize) -> bool {
    dirty[k as int] || exists|i: int|
        0 <= i < manifest::inputs_of(e).len() && w.outputs.contains_key(
            #[trigger] manifest::inputs_of(e)[i],
        ) && dirty[w.outputs[manifest::inputs_of(e)[i]] as int]
}

/// What is said of the first path that only comes before a phony edge of `list`,
/// from `i` on, that is not there and that nothing makes, where the edge is in
/// motion.
pub open spec fn lost_order(
    m: ManifestView,
    w: World,
    dirty: Seq<bool>,
    list: Seq<usize>,
    i: int,
) -> Option<Seq<char>>
    decreases list.len() - i,
{
    if i < 0 || i >= list.len() {
        None
    } else {
        let e = m.edges[list[i] as int];
        if e.rule == "phony"@ && first_lost(w, e.order_only_inputs, 0) is Some && is_in_motion(
            w,
            dirty,
            e,
            list[i],
        ) {
            Some(needed(e, first_lost(w, e.order_only_inputs, 0)->Some_0))
        } else {
            lost_order(m, w, dirty, list, i + 1)
        }
    }
}

/// What is said of the first input of the edges of `list` that is not there and
/// that nothing makes.
pub open spec fn missing_source(m: ManifestView, s: Situation, list: Seq<usize>) -> Option<
    Seq<char>,
> {
    if lost_source(m, s.world, list, 0) is Some {
        lost_source(m, s.world, list, 0)
    } else {
        lost_order(m, s.world, plan(m, s, true, list, list.len() as int).dirty, list, 0)
    }
}

fn needed_message(edge: &Edge, path: &str) -> (r: String)
    ensures
        r@ == needed(edge.deep_view(), path@),
{
    let outputs: Vec<&str> = edge.outputs();
    let mut r: String = "'".to_owned();
    r.append(path);
    r.append("', needed by '");
    if outputs.len() > 0 {
        proof {
            assert(spell::views(outputs@)[0] == outputs@[0]@);
        }
        r.append(outputs[0]);
    } else {
        r.append(path);
    }
    r.append("', missing and no known rule to make it");
    r
}

fn find_lost_source<'b>(files: &Files<'_>, edge: &'b Edge) -> (r: Option<&'b str>)
    requires
        manifest::inputs_of(edge.deep_view()).len() <= usize::MAX,
    ensures
        pools::optional_text(r) == first_lost(files@, freshness::sources(edge.deep_view()), 0),
{
    let ghost list = freshness::sources(edge.deep_view());
    let mut i: usize = 0;
    loop
        invariant
            list == freshness::sources(edge.deep_view()),
            list.len() <= usize::MAX,
            i <= list.len(),
            first_lost(files@, list, i as int) == first_lost(files@, list, 0),
        decreases list.len() - i,
    {
        match source_at(edge, i) {
            None => {
                return None;
            },
            Some(path) => {
                if files.producer(path).is_none() && files.file_time(path).is_none() {
                    return Some(path);
                }
                i += 1;
            },
        }
    }
}

fn find_lost_order<'b>(files: &Files<'_>, edge: &'b Edge) -> (r: Option<&'b str>)
    ensures
        pools::optional_text(r) == first_lost(files@, edge.deep_view().order_only_inputs, 0),
{
    let ghost list = edge.deep_view().order_only_inputs;
    let mut i: usize = 0;
    while i < edge.order_only_inputs.len()
        invariant
            list == text::strings(edge.order_only_inputs@),
            i <= list.len(),
            first_lost(files@, list, i as int) == first_lost(files@, list, 0),
        decreases edge.order_only_inputs@.len() - i,
    {
        let path: &str = edge.order_only_inputs[i].as_str();
        proof {
            assert(list[i as int] == path@);
        }
        if files.producer(path).is_none() && files.file_time(path).is_none() {
            return Some(path);
        }
        i += 1;
    }
    None
}

fn is_moving(files: &Files<'_>, dirty: &Vec<bool>, edge: &Edge, k: usize) -> (r: bool)
    requires
        freshness::is_world(files@),
        dirty@.len() == files@.edges.len(),
        k < dirty@.len(),
    ensures
        r == is_in_motion(files@, dirty@, edge.deep_view(), k),
{
    if dirty[k] {
        return true;
    }
    let inputs: Vec<&str> = edge.inputs();
    let ghost list = manifest::inputs_of(edge.deep_view());
    let mut i: usize = 0;
    while i < inputs.len()
        invariant
            freshness::is_world(files@),
            dirty@.len() == files@.edges.len(),
            list == manifest::inputs_of(edge.deep_view()),
            spell::views(inputs@) == list,
            i <= inputs@.len(),
            forall|x: int|
                0 <= x < i ==> !(files@.outputs.contains_key(#[trigger] list[x])
                    && dirty@[files@.outputs[list[x]] as int]),
        decreases inputs@.len() - i,
    {
        proof {
            assert(list[i as int] == inputs@[i as int]@);
        }
        if let Some(p) = files.producer(inputs[i]) {
            if dirty[p] {
                return true;
            }
        }
        i += 1;
    }
    false
}

impl<'a> Evaluation<'a> {
    /// What is said of the first input of the edges of `closure` that is not there
    /// and that nothing makes. The edges come behind those that they wait for.
    pub fn missing_source_error(&self, closure: &[usize]) -> (r: Option<String>)
        requires
            staleness::is_situation(self@),
            forall|i: int|
                0 <= i < closure@.len() ==> (#[trigger] closure@[i]) < self@.world.edges.len(),
        ensures
            expand::optional(r) == missing_source(
                self.files.manifest.deep_view(),
                self@,
                closure@,
            ),
    {
        let manifest: &Manifest = self.files.manifest;
        let ghost m = manifest.deep_view();
        let ghost s = self@;
        let mut deferred: bool = false;
        let mut i: usize = 0;
        while i < closure.len()
            invariant
                m == manifest.deep_view(),
                s == self@,
                manifest == self.files.manifest,
                m.edges == s.world.edges,
                m.edges.len() == manifest.edges@.len(),
                staleness::is_situation(s),
                i <= closure@.len(),
                forall|i: int|
                    0 <= i < closure@.len() ==> (#[trigger] closure@[i]) < s.world.edges.len(),
                lost_source(m, s.world, closure@, i as int) == lost_source(
                    m,
                    s.world,
                    closure@,
                    0,
                ),
                !deferred ==> forall|dirty: Seq<bool>|
                    lost_order(m, s.world, dirty, closure@, i as int) == #[trigger] lost_order(
                        m,
                        s.world,
                        dirty,
                        closure@,
                        0,
                    ),
            decreases closure@.len() - i,
        {
            let edge: &Edge = &manifest.edges[closure[i]];
            proof {
                assert(m.edges[closure@[i as int] as int] == edge.deep_view());
            }
            if let Some(path) = find_lost_source(&self.files, edge) {
                return Some(needed_message(edge, path));
            }
            if let Some(path) = find_lost_order(&self.files, edge) {
                if !same_str(edge.rule.as_str(), "phony") {
                    return Some(needed_message(edge, path));
                }
                deferred = true;
            }
            i += 1;
        }
        if !deferred {
            return None;
        }
        let dirty: Vec<bool> = self.initially_dirty_edges(closure, true);
        proof {
            lemma_plan(m, s, true, closure@, closure@.len() as int);
        }
        let mut j: usize = 0;
        while j < closure.len()
            invariant
                m == manifest.deep_view(),
                s == self@,
                manifest == self.files.manifest,
                m.edges == s.world.edges,
                m.edges.len() == manifest.edges@.len(),
                staleness::is_situation(s),
                dirty@.len() == m.edges.len(),
                dirty@ == plan(m, s, true, closure@, closure@.len() as int).dirty,
                lost_source(m, s.world, closure@, 0) is None,
                j <= closure@.len(),
                forall|i: int|
                    0 <= i < closure@.len() ==> (#[trigger] closure@[i]) < s.world.edges.len(),
                lost_order(m, s.world, dirty@, closure@, j as int) == lost_order(
                    m,
                    s.world,
                    dirty@,
                    closure@,
                    0,
                ),
            decreases closure@.len() - j,
        {
            let k: usize = closure[j];
            let edge: &Edge = &manifest.edges[k];
            proof {
                assert(m.edges[k as int] == edge.deep_view());
            }
            if same_str(edge.rule.as_str(), "phony") {
                if let Some(path) = find_lost_order(&self.files, edge) {
                    if is_moving(&self.files, &dirty, edge, k) {
                        return Some(needed_message(edge, path));
                    }
                }
            }
            j += 1;
        }
        None
    }
}

proof fn lemma_plan(m: ManifestView, s: Situation, phonies: bool, list: Seq<usize>, n: int)
    requires
        0 <= n <= list.len(),
        forall|i: int| 0 <= i < list.len() ==> (#[trigger] list[i]) < m.edges.len(),
    ensures
        plan(m, s, phonies, list, n).dirty.len() == m.edges.len(),
    decreases n,
{
    if n > 0 {
        lemma_plan(m, s, phonies, list, n - 1);
        assert(list[n - 1] < m.edges.len());
    }
}

/// Whether edge `k` is among those that a plan runs and has not been run.
pub open spec fn is_planned(m: ManifestView, dirty: Seq<bool>, done: Seq<usize>, k: usize) -> bool {
    dirty[k as int] && !done.contains(k) && m.edges[k as int].rule != "phony"@
}

/// How many of the first `n` edges of `list` a plan runs that have not been run.
pub open spec fn planned(
    m: ManifestView,
    dirty: Seq<bool>,
    done: Seq<usize>,
    list: Seq<usize>,
    n: int,
) -> nat
    decreases n,
{
    if n <= 0 {
        0
    } else {
        planned(m, dirty, done, list, n - 1) + (if is_planned(m, dirty, done, list[n - 1]) {
            1nat
        } else {
            0
        })
    }
}

fn is_among(list: &[usize], k: usize) -> (r: bool)
    ensures
        r == list@.contains(k),
{
    let mut i: usize = 0;
    while i < list.len()
        invariant
            i <= list@.len(),
            forall|x: int| 0 <= x < i ==> list@[x] != k,
        decreases list@.len() - i,
    {
        if list[i] == k {
            proof {
                assert(list@[i as int] == k);
            }
            return true;
        }
        i += 1;
    }
    false
}

/// How many commands a plan runs beyond those that have been run.
pub fn planned_commands(
    manifest: &Manifest,
    closure: &[usize],
    dirty: &[bool],
    done: &[usize],
) -> (r: usize)
    requires
        dirty@.len() == manifest.edges@.len(),
        forall|i: int| 0 <= i < closure@.len() ==> (#[trigger] closure@[i]) < manifest.edges@.len(),
    ensures
        r == planned(manifest.deep_view(), dirty@, done@, closure@, closure@.len() as int),
        r <= closure@.len(),
{
    let ghost m = manifest.deep_view();
    let mut r: usize = 0;
    let mut i: usize = 0;
    while i < closure.len()
        invariant
            m == manifest.deep_view(),
            dirty@.len() == manifest.edges@.len(),
            forall|i: int|
                0 <= i < closure@.len() ==> (#[trigger] closure@[i]) < manifest.edges@.len(),
            i <= closure@.len(),
            r <= i,
            r == planned(m, dirty@, done@, closure@, i as int),
        decreases closure@.len() - i,
    {
        let k: usize = closure[i];
        let edge: &Edge = &manifest.edges[k];
        proof {
            assert(m.edges[k as int] == edge.deep_view());
        }
        if dirty[k] && !is_among(done, k) && !same_str(edge.rule.as_str(), "phony") {
            r += 1;
        }
        i += 1;
    }
    r
}

/// What is said of the first input of an edge that is not there and that nothing
/// makes.
pub open spec fn absent_input(w: World, e: EdgeView) -> Option<Seq<char>> {
    match first_lost(w, freshness::sources(e), 0) {
        Some(path) => Some("input '"@ + path + "' is missing"@),
        None => None,
    }
}

impl<'a> Evaluation<'a> {
    /// What is said of the first input of edge `k`, which runs no command, that is
    /// not there and that nothing makes.
    pub fn absent_input_error(&self, k: usize) -> (r: Option<String>)
        requires
            staleness::is_situation(self@),
            k < self@.world.edges.len(),
        ensures
            expand::optional(r) == absent_input(
                self@.world,
                self.files.manifest.deep_view().edges[k as int],
            ),
    {
        let edge: &Edge = &self.files.manifest.edges[k];
        proof {
            assert(self.files.manifest.deep_view().edges[k as int] == edge.deep_view());
        }
        match find_lost_source(&self.files, edge) {
            Some(path) => {
                let mut r: String = "input '".to_owned();
                r.append(path);
                r.append("' is missing");
                Some(r)
            },
            None => None,
        }
    }
}

/// A build whose sources are all there finds no input absent later on, for what it
/// makes only adds files.
pub proof fn law_present_sources_stay_present(
    m: ManifestView,
    s: Situation,
    list: Seq<usize>,
    times: Map<Seq<char>, u128>,
    i: int,
)
    requires
        0 <= i < list.len(),
        missing_source(m, s, list) is None,
        s.world.times.dom().subset_of(times.dom()),
    ensures
        absent_input(World { times, ..s.world }, m.edges[list[i] as int]) is None,
{
    lemma_no_lost_source(m, s.world, list, 0, i);
    lemma_still_there(s.world, times, freshness::sources(m.edges[list[i] as int]), 0);
}

proof fn lemma_no_lost_source(m: ManifestView, w: World, list: Seq<usize>, from: int, i: int)
    requires
        0 <= from <= i < list.len(),
        lost_source(m, w, list, from) is None,
    ensures
        first_lost(w, freshness::sources(m.edges[list[i] as int]), 0) is None,
    decreases i - from,
{
    if from < i {
        lemma_no_lost_source(m, w, list, from + 1, i);
    }
}

proof fn lemma_still_there(
    w: World,
    times: Map<Seq<char>, u128>,
    paths: Seq<Seq<char>>,
    from: int,
)
    requires
        0 <= from <= paths.len(),
        first_lost(w, paths, from) is None,
        w.times.dom().subset_of(times.dom()),
    ensures
        first_lost(World { times, ..w }, paths, from) is None,
    decreases paths.len() - from,
{
    if from < paths.len() {
        assert(w.times.contains_key(paths[from]) ==> w.times.dom().contains(paths[from]));
        lemma_still_there(w, times, paths, from + 1);
    }
}

} // verus!
