//! Whether an edge must run: what it makes is missing, or older than what it is
//! made from, or was made by another command.
use crate::binding;
use crate::build_log;
use crate::build_log::BuildLog;
use crate::build_log::BuildLogEntry;
use crate::collections::set_contains;
use crate::closure;
use crate::expand;
use crate::freshness;
use crate::freshness::latest;
use crate::freshness::source_at;
use crate::freshness::Files;
use crate::freshness::World;
use crate::manifest;
use crate::manifest::Edge;
use crate::manifest::EdgeView;
use crate::manifest::Manifest;
use crate::manifest::ManifestView;
use crate::policy;
use crate::policy::truthy;
use crate::pools;
use crate::pools::edge_pool;
use crate::render;
use crate::render::render_binding;
use crate::render::render_unescaped_binding;
use crate::spell;
use crate::text;
use crate::text::same_str;
use rapidhash::RapidHashSet;
use vstd::prelude::*;
use vstd::string::*;

verus! {

/// What a binding of an edge is on a command line.
pub open spec fn quoted(m: ManifestView, e: EdgeView, name: Seq<char>, windows: bool) -> Seq<
    char,
> {
    binding::valued(m.scopes, e, render::lists_of(e, Some(windows)), name, 0)
}

/// What a binding of an edge is where it is no part of a command line.
pub open spec fn plain(m: ManifestView, e: EdgeView, name: Seq<char>) -> Seq<char> {
    binding::valued(m.scopes, e, render::lists_of(e, None), name, 0)
}

/// Whether a text is empty.
pub fn is_empty(value: &str) -> (r: bool)
    ensures
        r == (value@.len() == 0),
{
    proof {
        reveal_strlit("");
        assert(value@.len() == 0 ==> value@ =~= ""@);
    }
    same_str(value, "")
}

/// What an edge runs, as it is written to the log: the command, and the contents
/// of its response file where it has one.
pub open spec fn logged_command(m: ManifestView, e: EdgeView, windows: bool) -> Seq<char> {
    let contents = quoted(m, e, "rspfile_content"@, windows);
    if contents.len() == 0 {
        quoted(m, e, "command"@, windows)
    } else {
        quoted(m, e, "command"@, windows) + ";rspfile="@ + contents
    }
}

/// What an edge runs, as it is written to the log.
pub fn log_command(manifest: &Manifest, edge: &Edge, windows: bool) -> (r: String)
    ensures
        r@ == logged_command(manifest.deep_view(), edge.deep_view(), windows),
{
    let contents: String = render_binding(manifest, edge, "rspfile_content", windows);
    let mut r: String = render_binding(manifest, edge, "command", windows);
    if !is_empty(contents.as_str()) {
        r.append(";rspfile=");
        r.append(contents.as_str());
    }
    r
}

/// Whether the log knows every one of `outputs`.
pub open spec fn are_logged(
    log: Map<Seq<char>, BuildLogEntry>,
    outputs: Seq<Seq<char>>,
) -> bool {
    forall|i: int| 0 <= i < outputs.len() ==> log.contains_key(#[trigger] outputs[i])
}

/// Whether the log knows every output of an edge.
pub fn has_entries(log: &BuildLog, edge: &Edge) -> (r: bool)
    ensures
        r == are_logged(log@, manifest::outputs_of(edge.deep_view())),
{
    let outputs: Vec<&str> = edge.outputs();
    let ghost list = manifest::outputs_of(edge.deep_view());
    let mut i: usize = 0;
    while i < outputs.len()
        invariant
            i <= outputs@.len(),
            list == manifest::outputs_of(edge.deep_view()),
            spell::views(outputs@) == list,
            forall|x: int| 0 <= x < i ==> log@.contains_key(#[trigger] list[x]),
        decreases outputs@.len() - i,
    {
        proof {
            assert(list[i as int] == outputs@[i as int]@);
        }
        if !log.has_entry(outputs[i]) {
            return false;
        }
        i += 1;
    }
    true
}

/// Whether the times of an edge's inputs are left out of account: the edge may
/// leave its outputs as they are, and the log tells when it last ran.
pub open spec fn goes_by_log(
    m: ManifestView,
    e: EdgeView,
    log: Map<Seq<char>, BuildLogEntry>,
    windows: bool,
) -> bool {
    policy::is_on(quoted(m, e, "restat"@, windows)) && are_logged(log, manifest::outputs_of(e))
}

/// What is known of an edge so far: whether it must run, why, and the newest time
/// of its inputs.
#[verifier::ext_equal]
pub struct Verdict {
    pub dirty: bool,
    pub reason: Seq<char>,
    pub newest: u128,
}

/// The oldest of `oldest` and the times of `outputs` from `i` on, or the first of
/// them that is not there.
pub open spec fn oldest_of(
    times: Map<Seq<char>, u128>,
    outputs: Seq<Seq<char>>,
    i: int,
    oldest: u128,
) -> Result<u128, Seq<char>>
    decreases outputs.len() - i,
{
    if i < 0 || i >= outputs.len() {
        Ok(oldest)
    } else if !times.contains_key(outputs[i]) {
        Err(outputs[i])
    } else {
        let t = times[outputs[i]];
        oldest_of(
            times,
            outputs,
            i + 1,
            if t < oldest {
                t
            } else {
                oldest
            },
        )
    }
}

/// The oldest time of the outputs of an edge, or the first that is not there.
pub fn oldest_output(files: &Files<'_>, edge: &Edge) -> (r: Result<u128, String>)
    ensures
        freshness::is_time(
            r,
            oldest_of(files@.times, manifest::outputs_of(edge.deep_view()), 0, u128::MAX),
        ),
{
    let outputs: Vec<&str> = edge.outputs();
    let ghost list = manifest::outputs_of(edge.deep_view());
    let ghost times = files@.times;
    let mut oldest: u128 = u128::MAX;
    let mut i: usize = 0;
    while i < outputs.len()
        invariant
            i <= outputs@.len(),
            times == files@.times,
            list == manifest::outputs_of(edge.deep_view()),
            spell::views(outputs@) == list,
            oldest_of(times, list, i as int, oldest) == oldest_of(times, list, 0, u128::MAX),
        decreases outputs@.len() - i,
    {
        proof {
            assert(list[i as int] == outputs@[i as int]@);
        }
        match files.file_time(outputs[i]) {
            Some(t) => {
                if t < oldest {
                    oldest = t;
                }
            },
            None => {
                return Err(outputs[i].to_owned());
            },
        }
        i += 1;
    }
    Ok(oldest)
}

/// What a build knows when it comes to an edge.
#[verifier::ext_equal]
pub struct Situation {
    pub world: World,
    pub log: Map<Seq<char>, BuildLogEntry>,
    /// The inputs of each edge that were found when it last ran.
    pub discovered: Seq<Seq<Seq<char>>>,
    /// Whether nothing is known of what an edge found when it last ran.
    pub missing: Seq<bool>,
    /// What is wrong with what an edge found when it last ran.
    pub errors: Seq<Option<Seq<char>>>,
    /// Which edges have run.
    pub ran: Seq<bool>,
    /// Outputs that were left as they were.
    pub cleaned: Set<Seq<char>>,
    pub windows: bool,
}

/// Whether an input was made anew.
pub open spec fn is_remade(s: Situation, path: Seq<char>) -> bool {
    s.world.outputs.contains_key(path) && s.ran[s.world.outputs[path] as int]
        && !s.cleaned.contains(path)
}

/// The verdict once an input of time `t` has been looked at.
pub open spec fn judged(
    s: Situation,
    v: Verdict,
    path: Seq<char>,
    t: u128,
    kind: Seq<char>,
    oldest: Option<u128>,
) -> Verdict {
    let newest = freshness::later(v.newest, t);
    if is_remade(s, path) || t == u128::MAX {
        Verdict { dirty: true, reason: path + " is dirty"@, newest }
    } else if !v.dirty && oldest is Some && t > oldest->Some_0 {
        Verdict {
            dirty: true,
            reason: kind + path + " is newer than the oldest output"@,
            newest,
        }
    } else {
        Verdict { newest, ..v }
    }
}

/// The verdict once the inputs in `list` from `i` on have been looked at.
pub open spec fn judged_sources(
    s: Situation,
    list: Seq<Seq<char>>,
    i: int,
    oldest: Option<u128>,
    v: Verdict,
) -> Result<Verdict, Seq<char>>
    decreases list.len() - i,
{
    if i < 0 || i >= list.len() {
        Ok(v)
    } else {
        match freshness::time(s.world, list[i], seq![]) {
            Err(message) => Err(message),
            Ok(t) => judged_sources(
                s,
                list,
                i + 1,
                oldest,
                judged(s, v, list[i], t, "input "@, oldest),
            ),
        }
    }
}

/// The verdict once the found inputs in `list` from `i` on have been looked at.
/// One that is neither there nor an output makes the edge run.
pub open spec fn judged_found(
    s: Situation,
    list: Seq<Seq<char>>,
    i: int,
    oldest: Option<u128>,
    v: Verdict,
) -> Result<Verdict, Seq<char>>
    decreases list.len() - i,
{
    if i < 0 || i >= list.len() {
        Ok(v)
    } else if !s.world.outputs.contains_key(list[i]) && !s.world.times.contains_key(list[i]) {
        judged_found(
            s,
            list,
            i + 1,
            oldest,
            if v.dirty {
                v
            } else {
                Verdict {
                    dirty: true,
                    reason: "discovered input '"@ + list[i] + "' is missing"@,
                    ..v
                }
            },
        )
    } else {
        match freshness::time(s.world, list[i], seq![]) {
            Err(message) => Err(message),
            Ok(t) => judged_found(
                s,
                list,
                i + 1,
                oldest,
                judged(s, v, list[i], t, "discovered input "@, oldest),
            ),
        }
    }
}

/// What is wrong with the first path of `list`, from `i` on, that has no time.
pub open spec fn untimed(w: World, list: Seq<Seq<char>>, i: int) -> Option<Seq<char>>
    decreases list.len() - i,
{
    if i < 0 || i >= list.len() {
        None
    } else {
        match freshness::time(w, list[i], seq![]) {
            Err(message) => Some(message),
            Ok(_) => untimed(w, list, i + 1),
        }
    }
}

/// The verdict on edge `k` by the times of its inputs and outputs alone.
pub open spec fn judged_by_times(m: ManifestView, s: Situation, k: usize) -> Result<
    Verdict,
    Seq<char>,
> {
    let e = m.edges[k as int];
    let start = oldest_of(s.world.times, manifest::outputs_of(e), 0, u128::MAX);
    let v = match start {
        Ok(_) => Verdict { dirty: false, reason: seq![], newest: 0 },
        Err(output) => Verdict {
            dirty: true,
            reason: "output "@ + output + " doesn't exist"@,
            newest: 0,
        },
    };
    let oldest = if start is Ok && !goes_by_log(m, e, s.log, s.windows) {
        Some(start->Ok_0)
    } else {
        None
    };
    match judged_sources(s, freshness::sources(e), 0, oldest, v) {
        Err(message) => Err(message),
        Ok(declared) => match judged_found(s, s.discovered[k as int], 0, oldest, declared) {
            Err(message) => Err(message),
            Ok(found) => match untimed(s.world, e.order_only_inputs, 0) {
                Some(message) => Err(message),
                None => Ok(found),
            },
        },
    }
}

/// The verdict on edge `k`.
pub open spec fn verdict(m: ManifestView, s: Situation, k: usize) -> Result<Verdict, Seq<char>> {
    let e = m.edges[k as int];
    let outputs = manifest::outputs_of(e);
    let generator = policy::is_on(quoted(m, e, "generator"@, s.windows));
    let hash = build_log::command_hash(logged_command(m, e, s.windows));
    match judged_by_times(m, s, k) {
        Err(message) => Err(message),
        Ok(v) => Ok(
            if v.dirty {
                v
            } else if build_log::is_changed(s.log, outputs, hash, generator) {
                Verdict { dirty: true, reason: "command line changed"@, ..v }
            } else if build_log::first_older(s.log, outputs, v.newest as nat, 0) is Some {
                Verdict {
                    dirty: true,
                    reason: "recorded mtime of '"@ + build_log::first_older(
                        s.log,
                        outputs,
                        v.newest as nat,
                        0,
                    )->Some_0 + "' is older than an input"@,
                    ..v
                }
            } else if s.missing[k as int] && !generator {
                Verdict { dirty: true, reason: "dependency information is missing"@, ..v }
            } else {
                v
            },
        ),
    }
}

/// What a build knows of an edge that it has come to. What the edge runs is left
/// out where it need not run.
#[verifier::ext_equal]
pub struct EvaluatedView {
    pub dirty: bool,
    pub reason: Seq<char>,
    pub command: Seq<char>,
    pub log_command: Seq<char>,
    pub description: Seq<char>,
    pub pool: Option<Seq<char>>,
    pub rspfile: Option<Seq<char>>,
    pub rspfile_content: Option<Seq<char>>,
    pub newest_input: u128,
}

/// A text, if it is not empty.
pub open spec fn filled(s: Seq<char>) -> Option<Seq<char>> {
    if s.len() == 0 {
        None
    } else {
        Some(s)
    }
}

/// What a build knows of edge `k`, or why the edge cannot be looked at.
pub open spec fn evaluated(m: ManifestView, s: Situation, k: usize) -> Result<
    EvaluatedView,
    Seq<char>,
> {
    let e = m.edges[k as int];
    if s.errors[k as int] is Some {
        Err(s.errors[k as int]->Some_0)
    } else {
        match verdict(m, s, k) {
            Err(message) => Err(message),
            Ok(v) => Ok(
                if v.dirty {
                    EvaluatedView {
                        dirty: true,
                        reason: v.reason,
                        command: quoted(m, e, "command"@, s.windows),
                        log_command: logged_command(m, e, s.windows),
                        description: quoted(m, e, "description"@, s.windows),
                        pool: pools::pool_of(m, e, s.windows),
                        rspfile: filled(plain(m, e, "rspfile"@)),
                        rspfile_content: filled(quoted(m, e, "rspfile_content"@, s.windows)),
                        newest_input: v.newest,
                    }
                } else {
                    EvaluatedView {
                        dirty: false,
                        reason: v.reason,
                        command: seq![],
                        log_command: seq![],
                        description: seq![],
                        pool: None,
                        rspfile: None,
                        rspfile_content: None,
                        newest_input: v.newest,
                    }
                },
            ),
        }
    }
}

/// What a build knows of an edge that it has come to. What the edge runs is left
/// out where it need not run.
pub struct EvaluatedEdge {
    pub dirty: bool,
    pub reason: String,
    pub command: String,
    pub log_command: String,
    pub description: String,
    pub pool: Option<String>,
    pub rspfile: Option<String>,
    pub rspfile_content: Option<String>,
    pub newest_input: u128,
}

impl EvaluatedEdge {
    pub open spec fn view(&self) -> EvaluatedView {
        EvaluatedView {
            dirty: self.dirty,
            reason: self.reason@,
            command: self.command@,
            log_command: self.log_command@,
            description: self.description@,
            pool: expand::optional(self.pool),
            rspfile: expand::optional(self.rspfile),
            rspfile_content: expand::optional(self.rspfile_content),
            newest_input: self.newest_input,
        }
    }
}

/// What a build knows when it comes to an edge.
pub struct Evaluation<'a> {
    pub files: Files<'a>,
    pub log: &'a BuildLog,
    pub discovered: &'a Vec<Vec<String>>,
    pub missing: &'a Vec<bool>,
    pub errors: &'a Vec<Option<String>>,
    pub ran: &'a Vec<bool>,
    pub cleaned: &'a RapidHashSet<String>,
    pub windows: bool,
}

pub open spec fn optional_texts(list: Seq<Option<String>>) -> Seq<Option<Seq<char>>> {
    Seq::new(list.len(), |i: int| expand::optional(list[i]))
}

impl<'a> Evaluation<'a> {
    pub open spec fn view(&self) -> Situation {
        Situation {
            world: self.files@,
            log: self.log@,
            discovered: closure::string_lists(self.discovered@),
            missing: self.missing@,
            errors: optional_texts(self.errors@),
            ran: self.ran@,
            cleaned: self.cleaned.deep_view(),
            windows: self.windows,
        }
    }
}

/// Whether something is known of every edge.
pub open spec fn is_situation(s: Situation) -> bool {
    let n = s.world.edges.len();
    &&& freshness::is_world(s.world)
    &&& s.discovered.len() == n
    &&& s.missing.len() == n
    &&& s.errors.len() == n
    &&& s.ran.len() == n
}

/// A verdict, and its time.
struct Finding {
    dirty: bool,
    reason: String,
    newest: u128,
}

impl Finding {
    spec fn view(&self) -> Verdict {
        Verdict { dirty: self.dirty, reason: self.reason@, newest: self.newest }
    }
}

fn filled_text(s: String) -> (r: Option<String>)
    ensures
        expand::optional(r) == filled(s@),
{
    if is_empty(s.as_str()) {
        None
    } else {
        Some(s)
    }
}

impl<'a> Evaluation<'a> {
    fn is_made_anew(&self, path: &str) -> (r: bool)
        requires
            is_situation(self@),
        ensures
            r == is_remade(self@, path@),
    {
        match self.files.producer(path) {
            Some(k) => self.ran[k] && !set_contains(self.cleaned, path),
            None => false,
        }
    }

    fn judge(
        &self,
        finding: &mut Finding,
        path: &str,
        t: u128,
        kind: &str,
        oldest: Option<u128>,
    )
        requires
            is_situation(self@),
        ensures
            final(finding)@ == judged(self@, old(finding)@, path@, t, kind@, oldest),
    {
        finding.newest = latest(finding.newest, t);
        if self.is_made_anew(path) || t == u128::MAX {
            let mut reason: String = path.to_owned();
            reason.append(" is dirty");
            finding.dirty = true;
            finding.reason = reason;
            return;
        }
        if finding.dirty {
            return;
        }
        if let Some(oldest) = oldest {
            if t > oldest {
                let mut reason: String = kind.to_owned();
                reason.append(path);
                reason.append(" is newer than the oldest output");
                finding.dirty = true;
                finding.reason = reason;
            }
        }
    }

    fn look_at_sources(&self, edge: &Edge, oldest: Option<u128>, finding: &mut Finding) -> (r:
        Result<(), String>)
        requires
            is_situation(self@),
            manifest::inputs_of(edge.deep_view()).len() <= usize::MAX,
        ensures
            match judged_sources(
                self@,
                freshness::sources(edge.deep_view()),
                0,
                oldest,
                old(finding)@,
            ) {
                Ok(v) => r is Ok && final(finding)@ == v,
                Err(expected) => r matches Err(message) && message@ == expected,
            },
    {
        let ghost s = self@;
        let ghost list = freshness::sources(edge.deep_view());
        let ghost goal = judged_sources(s, list, 0, oldest, finding@);
        let mut i: usize = 0;
        loop
            invariant_except_break
                judged_sources(s, list, i as int, oldest, finding@) == goal,
            invariant
                s == self@,
                is_situation(s),
                list == freshness::sources(edge.deep_view()),
                list.len() <= usize::MAX,
                goal == judged_sources(s, list, 0, oldest, old(finding)@),
            ensures
                goal == Ok::<Verdict, Seq<char>>(finding@),
            decreases list.len() - i,
        {
            match source_at(edge, i) {
                None => {
                    break;
                },
                Some(path) => {
                    match self.files.virtual_mtime(path) {
                        Ok(t) => {
                            self.judge(finding, path, t, "input ", oldest);
                        },
                        Err(message) => {
                            return Err(message);
                        },
                    }
                    i += 1;
                },
            }
        }
        Ok(())
    }

    fn look_at_found(&self, k: usize, oldest: Option<u128>, finding: &mut Finding) -> (r: Result<
        (),
        String,
    >)
        requires
            is_situation(self@),
            k < self@.world.edges.len(),
        ensures
            match judged_found(
                self@,
                self@.discovered[k as int],
                0,
                oldest,
                old(finding)@,
            ) {
                Ok(v) => r is Ok && final(finding)@ == v,
                Err(expected) => r matches Err(message) && message@ == expected,
            },
    {
        let ghost s = self@;
        let found: &Vec<String> = &self.discovered[k];
        let ghost list = s.discovered[k as int];
        let ghost goal = judged_found(s, list, 0, oldest, finding@);
        proof {
            assert(list == text::strings(found@));
        }
        let mut i: usize = 0;
        while i < found.len()
            invariant
                s == self@,
                is_situation(s),
                list == text::strings(found@),
                list == s.discovered[k as int],
                i <= found@.len(),
                judged_found(s, list, i as int, oldest, finding@) == goal,
                goal == judged_found(s, list, 0, oldest, old(finding)@),
            decreases found@.len() - i,
        {
            let path: &str = found[i].as_str();
            proof {
                assert(list[i as int] == path@);
            }
            if self.files.producer(path).is_none() && self.files.file_time(path).is_none() {
                if !finding.dirty {
                    let mut reason: String = "discovered input '".to_owned();
                    reason.append(path);
                    reason.append("' is missing");
                    finding.dirty = true;
                    finding.reason = reason;
                }
            } else {
                match self.files.virtual_mtime(path) {
                    Ok(t) => {
                        self.judge(finding, path, t, "discovered input ", oldest);
                    },
                    Err(message) => {
                        return Err(message);
                    },
                }
            }
            i += 1;
        }
        Ok(())
    }

    fn look_at_order(&self, edge: &Edge) -> (r: Option<String>)
        requires
            is_situation(self@),
        ensures
            expand::optional(r) == untimed(self@.world, edge.deep_view().order_only_inputs, 0),
    {
        let ghost w = self@.world;
        let ghost list = edge.deep_view().order_only_inputs;
        let mut i: usize = 0;
        while i < edge.order_only_inputs.len()
            invariant
                w == self@.world,
                is_situation(self@),
                list == text::strings(edge.order_only_inputs@),
                i <= edge.order_only_inputs@.len(),
                untimed(w, list, i as int) == untimed(w, list, 0),
            decreases edge.order_only_inputs@.len() - i,
        {
            proof {
                assert(list[i as int] == edge.order_only_inputs@[i as int]@);
            }
            if let Err(message) = self.files.virtual_mtime(edge.order_only_inputs[i].as_str()) {
                return Some(message);
            }
            i += 1;
        }
        None
    }

    fn judge_by_times(&self, k: usize) -> (r: Result<Finding, String>)
        requires
            is_situation(self@),
            k < self@.world.edges.len(),
        ensures
            match judged_by_times(self.files.manifest.deep_view(), self@, k) {
                Ok(v) => r matches Ok(finding) && finding@ == v,
                Err(expected) => r matches Err(message) && message@ == expected,
            },
    {
        let manifest: &Manifest = self.files.manifest;
        let edge: &Edge = &manifest.edges[k];
        let ghost m = manifest.deep_view();
        let ghost s = self@;
        proof {
            assert(m.edges[k as int] == edge.deep_view());
            assert(m.edges == s.world.edges);
            reveal_strlit("");
        }
        let restat: String = render_binding(manifest, edge, "restat", self.windows);
        let by_log: bool = truthy(restat.as_str()) && has_entries(self.log, edge);
        let mut finding: Finding = Finding { dirty: false, reason: String::new(), newest: 0 };
        proof {
            assert(finding.reason@ =~= seq![]);
        }
        let mut oldest: Option<u128> = None;
        match oldest_output(&self.files, edge) {
            Ok(t) => {
                if !by_log {
                    oldest = Some(t);
                }
            },
            Err(output) => {
                let mut reason: String = "output ".to_owned();
                reason.append(output.as_str());
                reason.append(" doesn't exist");
                finding.dirty = true;
                finding.reason = reason;
            },
        }
        if let Err(message) = self.look_at_sources(edge, oldest, &mut finding) {
            return Err(message);
        }
        if let Err(message) = self.look_at_found(k, oldest, &mut finding) {
            return Err(message);
        }
        if let Some(message) = self.look_at_order(edge) {
            return Err(message);
        }
        Ok(finding)
    }

    fn judge_edge(&self, k: usize) -> (r: Result<Finding, String>)
        requires
            is_situation(self@),
            k < self@.world.edges.len(),
        ensures
            match verdict(self.files.manifest.deep_view(), self@, k) {
                Ok(v) => r matches Ok(finding) && finding@ == v,
                Err(expected) => r matches Err(message) && message@ == expected,
            },
    {
        let manifest: &Manifest = self.files.manifest;
        let edge: &Edge = &manifest.edges[k];
        proof {
            assert(manifest.deep_view().edges[k as int] == edge.deep_view());
        }
        let mut finding: Finding = match self.judge_by_times(k) {
            Ok(finding) => finding,
            Err(message) => {
                return Err(message);
            },
        };
        if finding.dirty {
            return Ok(finding);
        }
        let command: String = log_command(manifest, edge, self.windows);
        let switch: String = render_binding(manifest, edge, "generator", self.windows);
        let generator: bool = truthy(switch.as_str());
        if self.log.command_changed(edge, command.as_str(), generator) {
            finding.dirty = true;
            finding.reason = "command line changed".to_owned();
            return Ok(finding);
        }
        if let Some(output) = self.log.recorded_mtime_dirty(edge, finding.newest) {
            let mut reason: String = "recorded mtime of '".to_owned();
            reason.append(output.as_str());
            reason.append("' is older than an input");
            finding.dirty = true;
            finding.reason = reason;
            return Ok(finding);
        }
        if self.missing[k] && !generator {
            finding.dirty = true;
            finding.reason = "dependency information is missing".to_owned();
        }
        Ok(finding)
    }

    /// What a build knows of an edge that it has come to, or why the edge cannot
    /// be looked at.
    pub fn evaluate_edge(&self, edge_id: usize) -> (r: Result<EvaluatedEdge, String>)
        requires
            is_situation(self@),
            edge_id < self@.world.edges.len(),
        ensures
            match evaluated(self.files.manifest.deep_view(), self@, edge_id) {
                Ok(e) => r matches Ok(edge) && edge@ == e,
                Err(expected) => r matches Err(message) && message@ == expected,
            },
    {
        let manifest: &Manifest = self.files.manifest;
        let edge: &Edge = &manifest.edges[edge_id];
        proof {
            assert(manifest.deep_view().edges[edge_id as int] == edge.deep_view());
            assert(self@.errors[edge_id as int] == expand::optional(
                self.errors@[edge_id as int],
            ));
        }
        if let Some(error) = &self.errors[edge_id] {
            return Err(error.clone());
        }
        let finding: Finding = match self.judge_edge(edge_id) {
            Ok(finding) => finding,
            Err(message) => {
                return Err(message);
            },
        };
        if !finding.dirty {
            proof {
                reveal_strlit("");
            }
            let r: EvaluatedEdge = EvaluatedEdge {
                dirty: false,
                reason: finding.reason,
                command: String::new(),
                log_command: String::new(),
                description: String::new(),
                pool: None,
                rspfile: None,
                rspfile_content: None,
                newest_input: finding.newest,
            };
            proof {
                assert(r.command@ =~= seq![]);
                assert(r.log_command@ =~= seq![]);
                assert(r.description@ =~= seq![]);
            }
            return Ok(r);
        }
        let rspfile: String = render_unescaped_binding(manifest, edge, "rspfile");
        let contents: String = render_binding(manifest, edge, "rspfile_content", self.windows);
        Ok(
            EvaluatedEdge {
                dirty: true,
                reason: finding.reason,
                command: render_binding(manifest, edge, "command", self.windows),
                log_command: log_command(manifest, edge, self.windows),
                description: render_binding(manifest, edge, "description", self.windows),
                pool: edge_pool(manifest, edge, self.windows),
                rspfile: filled_text(rspfile),
                rspfile_content: filled_text(contents),
                newest_input: finding.newest,
            },
        )
    }
}

/// The time of a path that has one.
pub open spec fn time_of(s: Situation, path: Seq<char>) -> u128 {
    freshness::time(s.world, path, seq![])->Ok_0
}

/// Whether a path is neither there nor an output.
pub open spec fn is_lost(s: Situation, path: Seq<char>) -> bool {
    !s.world.outputs.contains_key(path) && !s.world.times.contains_key(path)
}

/// Whether an input makes an edge run whose oldest output is of time `oldest`.
pub open spec fn forces(s: Situation, path: Seq<char>, oldest: Option<u128>) -> bool {
    is_remade(s, path) || time_of(s, path) == u128::MAX || (oldest is Some && time_of(s, path)
        > oldest->Some_0)
}

/// Whether an input of one of `list`, from `i` on, makes an edge run.
pub open spec fn any_forces(
    s: Situation,
    list: Seq<Seq<char>>,
    i: int,
    oldest: Option<u128>,
) -> bool {
    exists|j: int| i <= j < list.len() && forces(s, #[trigger] list[j], oldest)
}

/// Whether a found input of one of `list`, from `i` on, makes an edge run.
pub open spec fn any_found_forces(
    s: Situation,
    list: Seq<Seq<char>>,
    i: int,
    oldest: Option<u128>,
) -> bool {
    exists|j: int|
        i <= j < list.len() && (is_lost(s, #[trigger] list[j]) || forces(s, list[j], oldest))
}

/// The time with which the outputs of an edge are compared, if they are all there
/// and their times count.
pub open spec fn compared(m: ManifestView, s: Situation, e: EdgeView) -> Option<u128> {
    match oldest_of(s.world.times, manifest::outputs_of(e), 0, u128::MAX) {
        Ok(t) => if goes_by_log(m, e, s.log, s.windows) {
            None
        } else {
            Some(t)
        },
        Err(_) => None,
    }
}

/// Whether the log has one of `outputs` with a time before that of `path`.
pub open spec fn is_logged_before(s: Situation, outputs: Seq<Seq<char>>, path: Seq<char>) -> bool {
    exists|i: int|
        0 <= i < outputs.len() && s.log.contains_key(#[trigger] outputs[i])
            && s.log[outputs[i]].mtime < time_of(s, path)
}

/// Whether edge `k` must run.
pub open spec fn must_run(m: ManifestView, s: Situation, k: usize) -> bool {
    let e = m.edges[k as int];
    let outputs = manifest::outputs_of(e);
    let made_from = freshness::sources(e);
    let found = s.discovered[k as int];
    let generator = policy::is_on(quoted(m, e, "generator"@, s.windows));
    ||| exists|i: int| 0 <= i < outputs.len() && !s.world.times.contains_key(#[trigger] outputs[i])
    ||| any_forces(s, made_from, 0, compared(m, s, e))
    ||| any_found_forces(s, found, 0, compared(m, s, e))
    ||| build_log::is_changed(
        s.log,
        outputs,
        build_log::command_hash(logged_command(m, e, s.windows)),
        generator,
    )
    ||| exists|j: int|
        0 <= j < made_from.len() && is_logged_before(s, outputs, #[trigger] made_from[j])
    ||| exists|j: int|
        0 <= j < found.len() && !is_lost(s, found[j]) && is_logged_before(
            s,
            outputs,
            #[trigger] found[j],
        )
    ||| s.missing[k as int] && !generator
}

pub proof fn lemma_judged_sources(
    s: Situation,
    list: Seq<Seq<char>>,
    i: int,
    oldest: Option<u128>,
    v: Verdict,
)
    requires
        0 <= i <= list.len(),
        judged_sources(s, list, i, oldest, v) is Ok,
    ensures
        ({
            let r = judged_sources(s, list, i, oldest, v)->Ok_0;
            &&& r.dirty <==> v.dirty || any_forces(s, list, i, oldest)
            &&& v.newest <= r.newest
            &&& forall|j: int| i <= j < list.len() ==> time_of(s, #[trigger] list[j]) <= r.newest
            &&& r.newest == v.newest || exists|j: int|
                i <= j < list.len() && time_of(s, #[trigger] list[j]) == r.newest
        }),
    decreases list.len() - i,
{
    if i < list.len() {
        let t = time_of(s, list[i]);
        let next = judged(s, v, list[i], t, "input "@, oldest);
        lemma_judged_sources(s, list, i + 1, oldest, next);
        if any_forces(s, list, i, oldest) && !any_forces(s, list, i + 1, oldest) {
            let j = choose|j: int|
                i <= j < list.len() && forces(s, #[trigger] list[j], oldest);
            assert(j == i);
        }
        if forces(s, list[i], oldest) {
            assert(any_forces(s, list, i, oldest));
        }
    }
}

pub proof fn lemma_judged_found(
    s: Situation,
    list: Seq<Seq<char>>,
    i: int,
    oldest: Option<u128>,
    v: Verdict,
)
    requires
        0 <= i <= list.len(),
        judged_found(s, list, i, oldest, v) is Ok,
    ensures
        ({
            let r = judged_found(s, list, i, oldest, v)->Ok_0;
            &&& r.dirty <==> v.dirty || any_found_forces(s, list, i, oldest)
            &&& v.newest <= r.newest
            &&& forall|j: int|
                i <= j < list.len() && !is_lost(s, list[j]) ==> time_of(s, #[trigger] list[j])
                    <= r.newest
            &&& r.newest == v.newest || exists|j: int|
                i <= j < list.len() && !is_lost(s, list[j]) && time_of(s, #[trigger] list[j])
                    == r.newest
        }),
    decreases list.len() - i,
{
    if i < list.len() {
        let next = if is_lost(s, list[i]) {
            if v.dirty {
                v
            } else {
                Verdict {
                    dirty: true,
                    reason: "discovered input '"@ + list[i] + "' is missing"@,
                    ..v
                }
            }
        } else {
            judged(s, v, list[i], time_of(s, list[i]), "discovered input "@, oldest)
        };
        lemma_judged_found(s, list, i + 1, oldest, next);
        if any_found_forces(s, list, i, oldest) && !any_found_forces(s, list, i + 1, oldest) {
            let j = choose|j: int|
                i <= j < list.len() && (is_lost(s, #[trigger] list[j]) || forces(
                    s,
                    list[j],
                    oldest,
                ));
            assert(j == i);
        }
        if is_lost(s, list[i]) || forces(s, list[i], oldest) {
            assert(any_found_forces(s, list, i, oldest));
        }
    }
}

pub proof fn lemma_oldest(
    times: Map<Seq<char>, u128>,
    outputs: Seq<Seq<char>>,
    i: int,
    oldest: u128,
)
    requires
        0 <= i <= outputs.len(),
    ensures
        oldest_of(times, outputs, i, oldest) is Err <==> exists|j: int|
            i <= j < outputs.len() && !times.contains_key(#[trigger] outputs[j]),
        oldest_of(times, outputs, i, oldest) matches Ok(t) ==> t <= oldest && (t == oldest
            || exists|j: int| i <= j < outputs.len() && times[#[trigger] outputs[j]] == t),
    decreases outputs.len() - i,
{
    if i < outputs.len() && times.contains_key(outputs[i]) {
        let t = times[outputs[i]];
        lemma_oldest(
            times,
            outputs,
            i + 1,
            if t < oldest {
                t
            } else {
                oldest
            },
        );
    }
}

pub proof fn lemma_older(
    log: Map<Seq<char>, BuildLogEntry>,
    outputs: Seq<Seq<char>>,
    newest: nat,
    i: int,
)
    requires
        0 <= i <= outputs.len(),
    ensures
        build_log::first_older(log, outputs, newest, i) is Some <==> exists|j: int|
            i <= j < outputs.len() && log.contains_key(#[trigger] outputs[j])
                && log[outputs[j]].mtime < newest,
    decreases outputs.len() - i,
{
    if i < outputs.len() && !(log.contains_key(outputs[i]) && log[outputs[i]].mtime < newest) {
        lemma_older(log, outputs, newest, i + 1);
    }
}

/// An edge that can be looked at is found dirty exactly where it must run: an
/// output is missing, an input was made anew or is newer than an output or than
/// the log, a found input is lost, the command is another, or nothing is known of
/// what the edge found.
pub proof fn law_edge_runs_exactly_where_it_must(m: ManifestView, s: Situation, k: usize)
    requires
        verdict(m, s, k) is Ok,
    ensures
        verdict(m, s, k)->Ok_0.dirty <==> must_run(m, s, k),
{
    let e = m.edges[k as int];
    let outputs = manifest::outputs_of(e);
    let made_from = freshness::sources(e);
    let found = s.discovered[k as int];
    let oldest = compared(m, s, e);
    lemma_oldest(s.world.times, outputs, 0, u128::MAX);
    let start = oldest_of(s.world.times, outputs, 0, u128::MAX);
    let v = match start {
        Ok(_) => Verdict { dirty: false, reason: seq![], newest: 0 },
        Err(output) => Verdict {
            dirty: true,
            reason: "output "@ + output + " doesn't exist"@,
            newest: 0,
        },
    };
    lemma_judged_sources(s, made_from, 0, oldest, v);
    let declared = judged_sources(s, made_from, 0, oldest, v)->Ok_0;
    lemma_judged_found(s, found, 0, oldest, declared);
    let by_times = judged_found(s, found, 0, oldest, declared)->Ok_0;
    assert(judged_by_times(m, s, k) == Ok::<Verdict, Seq<char>>(by_times));
    let newest = by_times.newest;
    lemma_older(s.log, outputs, newest as nat, 0);
    let is_older = exists|j: int|
        0 <= j < outputs.len() && s.log.contains_key(#[trigger] outputs[j])
            && s.log[outputs[j]].mtime < newest;
    let by_source = exists|j: int|
        0 <= j < made_from.len() && is_logged_before(s, outputs, #[trigger] made_from[j]);
    let by_found = exists|j: int|
        0 <= j < found.len() && !is_lost(s, found[j]) && is_logged_before(
            s,
            outputs,
            #[trigger] found[j],
        );
    if is_older {
        let i = choose|i: int|
            0 <= i < outputs.len() && s.log.contains_key(#[trigger] outputs[i])
                && s.log[outputs[i]].mtime < newest;
        if newest == declared.newest {
            let j = choose|j: int|
                0 <= j < made_from.len() && time_of(s, #[trigger] made_from[j]) == newest;
            assert(is_logged_before(s, outputs, made_from[j]));
        } else {
            let j = choose|j: int|
                0 <= j < found.len() && !is_lost(s, found[j]) && time_of(s, #[trigger] found[j])
                    == newest;
            assert(is_logged_before(s, outputs, found[j]));
        }
        assert(by_source || by_found);
    }
    if by_source {
        let j = choose|j: int|
            0 <= j < made_from.len() && is_logged_before(s, outputs, #[trigger] made_from[j]);
        assert(time_of(s, made_from[j]) <= declared.newest);
    }
    if by_found {
        let j = choose|j: int|
            0 <= j < found.len() && !is_lost(s, found[j]) && is_logged_before(
                s,
                outputs,
                #[trigger] found[j],
            );
        assert(time_of(s, found[j]) <= newest);
    }
    assert(is_older <==> by_source || by_found);
}

} // verus!
