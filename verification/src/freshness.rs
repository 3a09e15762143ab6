//! The times of files, and of phony outputs that are no files.
use crate::collections::map_get;
use crate::cycle;
use crate::manifest;
use crate::manifest::Edge;
use crate::manifest::EdgeView;
use crate::manifest::Manifest;
use crate::text::same_str;
use rapidhash::RapidHashMap;
use vstd::prelude::*;
use vstd::string::*;

verus! {

/// What decides how old a path is: the edges, the edge of each output, and the
/// times of the files that are there.
#[verifier::ext_equal]
pub struct World {
    pub edges: Seq<EdgeView>,
    pub outputs: Map<Seq<char>, usize>,
    pub times: Map<Seq<char>, u128>,
}

/// Whether outputs belong to edges. The edges and the inputs of each can be
/// counted.
pub open spec fn is_world(w: World) -> bool {
    &&& w.edges.len() <= usize::MAX
    &&& forall|k: int|
        0 <= k < w.edges.len() ==> manifest::inputs_of(#[trigger] w.edges[k]).len() <= usize::MAX
    &&& forall|path: Seq<char>| #[trigger]
        w.outputs.contains_key(path) ==> w.outputs[path] < w.edges.len()
}

/// The edges of a manifest, the edge of each output, and the times of the files
/// that are there.
pub struct Files<'a> {
    pub manifest: &'a Manifest,
    pub outputs: &'a RapidHashMap<String, usize>,
    pub times: &'a RapidHashMap<String, u128>,
}

impl<'a> Files<'a> {
    pub open spec fn view(&self) -> World {
        World {
            edges: self.manifest.deep_view().edges,
            outputs: self.outputs.deep_view(),
            times: self.times.deep_view(),
        }
    }
}

/// The inputs that an edge is made from: all but those that only come before it.
pub open spec fn sources(e: EdgeView) -> Seq<Seq<char>> {
    e.explicit_inputs + e.implicit_inputs
}

/// The input `j` that an edge is made from.
pub fn source_at(edge: &Edge, j: usize) -> (r: Option<&str>)
    ensures
        match r {
            Some(path) => j < sources(edge.deep_view()).len() && path@ == sources(
                edge.deep_view(),
            )[j as int],
            None => j >= sources(edge.deep_view()).len(),
        },
{
    if j < edge.explicit_inputs.len() {
        return Some(edge.explicit_inputs[j].as_str());
    }
    let index: usize = j - edge.explicit_inputs.len();
    if index < edge.implicit_inputs.len() {
        return Some(edge.implicit_inputs[index].as_str());
    }
    None
}

/// Whether an edge has neither inputs nor validations.
pub open spec fn is_bare(e: EdgeView) -> bool {
    manifest::inputs_of(e).len() == 0 && e.validations.len() == 0
}

pub fn has_nothing(edge: &Edge) -> (r: bool)
    ensures
        r == is_bare(edge.deep_view()),
{
    edge.explicit_inputs.len() == 0 && edge.implicit_inputs.len() == 0
        && edge.order_only_inputs.len() == 0 && edge.validations.len() == 0
}

pub open spec fn later(a: u128, b: u128) -> u128 {
    if a < b {
        b
    } else {
        a
    }
}

pub fn latest(a: u128, b: u128) -> (r: u128)
    ensures
        r == later(a, b),
{
    if a < b {
        b
    } else {
        a
    }
}

/// What is said of an input that is not there.
pub open spec fn missing_input(path: Seq<char>) -> Seq<char> {
    "input '"@ + path + "' is missing"@
}

/// The time of a path. A phony output that is no file is as new as the newest
/// input of its edge, and newer than everything where its edge has nothing to
/// look at. `open` are the phony edges whose times are being asked for.
pub open spec fn time(w: World, path: Seq<char>, open: Seq<usize>) -> Result<u128, Seq<char>>
    decreases w.edges.len() - open.len(), 0int,
{
    if w.times.contains_key(path) {
        Ok(w.times[path])
    } else if !w.outputs.contains_key(path) {
        Err(missing_input(path))
    } else {
        let k = w.outputs[path];
        let e = w.edges[k as int];
        if e.rule != "phony"@ {
            Err("output '"@ + path + "' was not created by its command"@)
        } else if open.contains(k) || open.len() >= w.edges.len() {
            Err("phony cycle involving '"@ + path + "'"@)
        } else if is_bare(e) {
            Ok(u128::MAX)
        } else {
            newest_time(w, k, 0, open.push(k), 0)
        }
    }
}

/// The newest of `newest` and the times of the sources of edge `k` from source
/// `j` on.
pub open spec fn newest_time(
    w: World,
    k: usize,
    j: int,
    open: Seq<usize>,
    newest: u128,
) -> Result<u128, Seq<char>>
    decreases w.edges.len() - open.len(), sources(w.edges[k as int]).len() - j + 1,
{
    let list = sources(w.edges[k as int]);
    if j < 0 || j >= list.len() {
        Ok(newest)
    } else {
        match time(w, list[j], open) {
            Err(message) => Err(message),
            Ok(t) => newest_time(w, k, j + 1, open, later(newest, t)),
        }
    }
}

/// Whether a function returned the time that is expected of it.
pub open spec fn is_time(r: Result<u128, String>, expected: Result<u128, Seq<char>>) -> bool {
    match r {
        Ok(t) => expected == Ok::<u128, Seq<char>>(t),
        Err(message) => expected == Err::<u128, Seq<char>>(message@),
    }
}

/// Whether `open` are different edges of `n`.
pub open spec fn are_edges(open: Seq<usize>, n: nat) -> bool {
    &&& open.no_duplicates()
    &&& forall|i: int| 0 <= i < open.len() ==> (#[trigger] open[i]) < n
}

/// Different numbers below `n` are at most `n`, and `n` of them are all.
pub proof fn lemma_few_edges(open: Seq<usize>, n: nat)
    requires
        are_edges(open, n),
    ensures
        open.len() <= n,
        open.len() == n ==> forall|k: usize| k < n ==> #[trigger] open.contains(k),
{
    cycle::lemma_pigeonhole(open, n);
    if open.len() == n {
        assert forall|k: usize| k < n implies #[trigger] open.contains(k) by {
            if !open.contains(k) {
                let more = open.push(k);
                assert forall|i: int, j: int|
                    0 <= i < more.len() && 0 <= j < more.len() && i != j implies more[i]
                    != more[j] by {
                    if i == n {
                        assert(open.contains(open[j]));
                    } else if j == n {
                        assert(open.contains(open[i]));
                    }
                }
                cycle::lemma_pigeonhole(more, n);
            }
        }
    }
}

/// Whether `k` is one of `open`.
pub fn has_edge(open: &Vec<usize>, k: usize) -> (r: bool)
    ensures
        r == open@.contains(k),
{
    let mut i: usize = 0;
    while i < open.len()
        invariant
            i <= open@.len(),
            forall|x: int| 0 <= x < i ==> #[trigger] open@[x] != k,
        decreases open@.len() - i,
    {
        if open[i] == k {
            return true;
        }
        i += 1;
    }
    false
}

impl<'a> Files<'a> {
    /// The time of a file, if it is there.
    pub fn file_time(&self, path: &str) -> (r: Option<u128>)
        ensures
            match r {
                Some(t) => self@.times.contains_key(path@) && self@.times[path@] == t,
                None => !self@.times.contains_key(path@),
            },
    {
        match map_get(self.times, path) {
            Some(t) => Some(*t),
            None => None,
        }
    }

    /// The edge of an output.
    pub fn producer(&self, path: &str) -> (r: Option<usize>)
        ensures
            match r {
                Some(k) => self@.outputs.contains_key(path@) && self@.outputs[path@] == k,
                None => !self@.outputs.contains_key(path@),
            },
    {
        match map_get(self.outputs, path) {
            Some(k) => Some(*k),
            None => None,
        }
    }

    fn time_within(&self, path: &str, open: &mut Vec<usize>) -> (r: Result<u128, String>)
        requires
            is_world(self@),
            are_edges(old(open)@, self@.edges.len()),
        ensures
            is_time(r, time(self@, path@, old(open)@)),
            r is Ok ==> final(open)@ == old(open)@,
        decreases self@.edges.len() - old(open)@.len(),
    {
        let ghost w = self@;
        let ghost before = open@;
        if let Some(t) = self.file_time(path) {
            return Ok(t);
        }
        let k: usize = match self.producer(path) {
            Some(k) => k,
            None => {
                let mut message: String = "input '".to_owned();
                message.append(path);
                message.append("' is missing");
                return Err(message);
            },
        };
        let edge: &Edge = &self.manifest.edges[k];
        proof {
            assert(w.edges[k as int] == edge.deep_view());
            lemma_few_edges(before, w.edges.len());
        }
        if !same_str(edge.rule.as_str(), "phony") {
            let mut message: String = "output '".to_owned();
            message.append(path);
            message.append("' was not created by its command");
            return Err(message);
        }
        if has_edge(open, k) {
            let mut message: String = "phony cycle involving '".to_owned();
            message.append(path);
            message.append("'");
            return Err(message);
        }
        if has_nothing(edge) {
            return Ok(u128::MAX);
        }
        open.push(k);
        let ghost inner = open@;
        let mut newest: u128 = 0;
        let mut j: usize = 0;
        loop
            invariant_except_break
                newest_time(w, k, j as int, inner, newest) == time(w, path@, before),
            invariant
                w == self@,
                is_world(w),
                k < w.edges.len(),
                w.edges[k as int] == edge.deep_view(),
                before == old(open)@,
                before.len() < w.edges.len(),
                inner == before.push(k),
                are_edges(inner, w.edges.len()),
                open@ == inner,
            ensures
                time(w, path@, before) == Ok::<u128, Seq<char>>(newest),
            decreases sources(w.edges[k as int]).len() - j,
        {
            match source_at(edge, j) {
                None => {
                    break;
                },
                Some(source) => {
                    match self.time_within(source, open) {
                        Ok(t) => {
                            newest = latest(newest, t);
                        },
                        Err(message) => {
                            return Err(message);
                        },
                    }
                    j += 1;
                },
            }
        }
        open.pop();
        proof {
            assert(open@ =~= before);
        }
        Ok(newest)
    }

    /// The time of a path. A phony output that is no file is as new as the newest
    /// input of its edge, and newer than everything where its edge has nothing to
    /// look at.
    pub fn virtual_mtime(&self, path: &str) -> (r: Result<u128, String>)
        requires
            is_world(self@),
        ensures
            is_time(r, time(self@, path@, seq![])),
    {
        let mut open: Vec<usize> = Vec::new();
        proof {
            assert(open@ =~= seq![]);
        }
        self.time_within(path, &mut open)
    }
}

} // verus!
