//! The inputs that an edge found when it ran: where they are written down, and
//! what they are.
use crate::collections::map_get;
use crate::depfile;
use crate::depfile::parse_depfile;
use crate::depfile::Depfile;
use crate::deps_log::DepsEntry;
use crate::deps_log::DepsLog;
use crate::deps_log::LogView;
use crate::dyndep_apply;
use crate::dyndep_apply::canonical_paths;
use crate::expand;
use crate::finalize::is_listed;
use crate::manifest;
use crate::manifest::Edge;
use crate::manifest::EdgeView;
use crate::manifest::Manifest;
use crate::manifest::ManifestView;
use crate::msvc::normalize_depfile;
use crate::render::render_binding;
use crate::render::render_unescaped_binding;
use crate::spell;
use crate::staleness;
use crate::staleness::is_empty;
use crate::text;
use crate::text::same_str;
use rapidhash::RapidHashMap;
use vstd::prelude::*;
use vstd::string::*;

verus! {

/// Where the inputs that an edge found are written down.
pub enum Notes {
    Nowhere,
    /// In the dependency log.
    Log,
    /// In a depfile.
    Depfile(String),
}

#[verifier::ext_equal]
pub enum NotesView {
    Nowhere,
    Log,
    Depfile(Seq<char>),
}

impl Notes {
    pub open spec fn view(&self) -> NotesView {
        match self {
            Notes::Nowhere => NotesView::Nowhere,
            Notes::Log => NotesView::Log,
            Notes::Depfile(path) => NotesView::Depfile(path@),
        }
    }
}

/// Where the inputs that an edge found are written down: an edge with `deps` has
/// them in the dependency log.
pub open spec fn notes(m: ManifestView, e: EdgeView, windows: bool) -> NotesView {
    if staleness::quoted(m, e, "deps"@, windows).len() > 0 {
        NotesView::Log
    } else if staleness::plain(m, e, "depfile"@).len() > 0 {
        NotesView::Depfile(staleness::plain(m, e, "depfile"@))
    } else {
        NotesView::Nowhere
    }
}

/// Where the inputs that an edge found are written down.
pub fn notes_of(manifest: &Manifest, edge: &Edge, windows: bool) -> (r: Notes)
    ensures
        r@ == notes(manifest.deep_view(), edge.deep_view(), windows),
{
    let deps: String = render_binding(manifest, edge, "deps", windows);
    if !is_empty(deps.as_str()) {
        return Notes::Log;
    }
    let depfile: String = render_unescaped_binding(manifest, edge, "depfile");
    if is_empty(depfile.as_str()) {
        Notes::Nowhere
    } else {
        Notes::Depfile(depfile)
    }
}

/// What is known of the inputs that an edge found: the inputs, whether nothing is
/// known of them, and what is wrong with what is written down.
pub struct Found {
    pub inputs: Vec<String>,
    pub missing: bool,
    pub error: Option<String>,
}

#[verifier::ext_equal]
pub struct FoundView {
    pub inputs: Seq<Seq<char>>,
    pub missing: bool,
    pub error: Option<Seq<char>>,
}

impl Found {
    pub open spec fn view(&self) -> FoundView {
        FoundView {
            inputs: text::strings(self.inputs@),
            missing: self.missing,
            error: expand::optional(self.error),
        }
    }

    fn with(inputs: Vec<String>) -> (r: Found)
        ensures
            r@ == found(text::strings(inputs@)),
    {
        Found { inputs, missing: false, error: None }
    }

    fn unknown() -> (r: Found)
        ensures
            r@ == nothing(true),
    {
        let r: Found = Found { inputs: Vec::new(), missing: true, error: None };
        proof {
            assert(text::strings(r.inputs@) =~= seq![]);
        }
        r
    }
}

pub open spec fn found(inputs: Seq<Seq<char>>) -> FoundView {
    FoundView { inputs, missing: false, error: None }
}

pub open spec fn nothing(missing: bool) -> FoundView {
    FoundView { inputs: seq![], missing, error: None }
}

/// What the dependency log knows of the inputs of an edge. What it knows counts as
/// long as the first output has not changed since; it is left out where it is not
/// `wanted`.
pub open spec fn found_in_log(
    e: EdgeView,
    log: LogView,
    times: Map<Seq<char>, u128>,
    wanted: bool,
    windows: bool,
) -> FoundView {
    let outputs = manifest::outputs_of(e);
    let valid = outputs.len() > 0 && log.entries.contains_key(outputs[0]) && times.contains_key(
        outputs[0],
    ) && times[outputs[0]] <= log.entries[outputs[0]].mtime;
    if !valid {
        nothing(true)
    } else if wanted {
        found(dyndep_apply::canonical_list(log.entries[outputs[0]].inputs, windows))
    } else {
        nothing(false)
    }
}

/// What the dependency log knows of the inputs of an edge.
pub fn read_log(
    edge: &Edge,
    log: &DepsLog,
    times: &RapidHashMap<String, u128>,
    wanted: bool,
    windows: bool,
) -> (r: Found)
    ensures
        r@ == found_in_log(edge.deep_view(), log@, times.deep_view(), wanted, windows),
{
    let outputs: Vec<&str> = edge.outputs();
    if outputs.len() == 0 {
        return Found::unknown();
    }
    proof {
        assert(spell::views(outputs@)[0] == outputs@[0]@);
    }
    let entry: &DepsEntry = match log.get(outputs[0]) {
        Some(entry) => entry,
        None => {
            return Found::unknown();
        },
    };
    let time: u128 = match map_get(times, outputs[0]) {
        Some(time) => *time,
        None => {
            return Found::unknown();
        },
    };
    if time > entry.mtime as u128 {
        return Found::unknown();
    }
    if wanted {
        return Found::with(canonical_paths(&entry.inputs, windows));
    }
    let r: Found = Found { inputs: Vec::new(), missing: false, error: None };
    proof {
        assert(text::strings(r.inputs@) =~= seq![]);
    }
    r
}

/// The first of `outputs`, from `i` on, that is not an output of an edge.
pub open spec fn first_undeclared(
    declared: Seq<Seq<char>>,
    outputs: Seq<Seq<char>>,
    i: int,
) -> Option<Seq<char>>
    decreases outputs.len() - i,
{
    if i < 0 || i >= outputs.len() {
        None
    } else if !declared.contains(outputs[i]) {
        Some(outputs[i])
    } else {
        first_undeclared(declared, outputs, i + 1)
    }
}

/// What a depfile says of the inputs of an edge. It must begin with the first
/// output of the edge, and all its targets must be outputs.
pub open spec fn found_in_depfile(
    e: EdgeView,
    path: Seq<char>,
    source: Seq<char>,
    windows: bool,
) -> FoundView {
    let outputs = manifest::outputs_of(e);
    match depfile::depfile(source) {
        Err(message) => FoundView {
            inputs: seq![],
            missing: false,
            error: Some(path + ": "@ + message),
        },
        Ok(d) => {
            let targets = dyndep_apply::canonical_list(d.outputs, windows);
            if targets.len() == 0 || outputs.len() == 0 || targets[0] != outputs[0] {
                nothing(true)
            } else if first_undeclared(outputs, targets, 0) is Some {
                FoundView {
                    inputs: seq![],
                    missing: false,
                    error: Some(
                        path + ": depfile mentions '"@ + first_undeclared(
                            outputs,
                            targets,
                            0,
                        )->Some_0 + "' as an output, but no such output was declared"@,
                    ),
                }
            } else {
                found(
                    dyndep_apply::canonical_list(
                        dyndep_apply::canonical_list(d.inputs, windows),
                        windows,
                    ),
                )
            }
        },
    }
}

fn find_undeclared(edge: &Edge, outputs: &Vec<String>) -> (r: Option<String>)
    ensures
        expand::optional(r) == first_undeclared(
            manifest::outputs_of(edge.deep_view()),
            text::strings(outputs@),
            0,
        ),
{
    let declared: Vec<&str> = edge.outputs();
    let ghost list = text::strings(outputs@);
    let mut i: usize = 0;
    while i < outputs.len()
        invariant
            spell::views(declared@) == manifest::outputs_of(edge.deep_view()),
            list == text::strings(outputs@),
            i <= outputs@.len(),
            first_undeclared(spell::views(declared@), list, i as int) == first_undeclared(
                spell::views(declared@),
                list,
                0,
            ),
        decreases outputs@.len() - i,
    {
        proof {
            assert(list[i as int] == outputs@[i as int]@);
        }
        if !is_listed(&declared, outputs[i].as_str()) {
            return Some(outputs[i].clone());
        }
        i += 1;
    }
    None
}

/// What a depfile says of the inputs of an edge.
pub fn read_depfile(edge: &Edge, path: &str, source: &str, windows: bool) -> (r: Found)
    ensures
        r@ == found_in_depfile(edge.deep_view(), path@, source@, windows),
{
    let parsed: Depfile = match parse_depfile(source) {
        Ok(parsed) => parsed,
        Err(error) => {
            let mut message: String = path.to_owned();
            message.append(": ");
            message.append(error.as_str());
            let r: Found = Found { inputs: Vec::new(), missing: false, error: Some(message) };
            proof {
                assert(text::strings(r.inputs@) =~= seq![]);
            }
            return r;
        },
    };
    let normal: Depfile = normalize_depfile(parsed, windows);
    let outputs: Vec<&str> = edge.outputs();
    proof {
        if outputs@.len() > 0 {
            assert(spell::views(outputs@)[0] == outputs@[0]@);
        }
        if normal.outputs@.len() > 0 {
            assert(text::strings(normal.outputs@)[0] == normal.outputs@[0]@);
        }
    }
    if normal.outputs.len() == 0 || outputs.len() == 0 || !same_str(
        normal.outputs[0].as_str(),
        outputs[0],
    ) {
        return Found::unknown();
    }
    if let Some(unexpected) = find_undeclared(edge, &normal.outputs) {
        let mut message: String = path.to_owned();
        message.append(": depfile mentions '");
        message.append(unexpected.as_str());
        message.append("' as an output, but no such output was declared");
        let r: Found = Found { inputs: Vec::new(), missing: false, error: Some(message) };
        proof {
            assert(text::strings(r.inputs@) =~= seq![]);
        }
        return r;
    }
    Found::with(canonical_paths(&normal.inputs, windows))
}

/// How an edge that has run tells the inputs that it found.
pub enum Report {
    Nothing,
    /// In a depfile.
    Gcc(String),
    /// In what it printed, behind a prefix.
    Msvc(String),
}

#[verifier::ext_equal]
pub enum ReportView {
    Nothing,
    Gcc(Seq<char>),
    Msvc(Seq<char>),
}

impl Report {
    pub open spec fn view(&self) -> ReportView {
        match self {
            Report::Nothing => ReportView::Nothing,
            Report::Gcc(depfile) => ReportView::Gcc(depfile@),
            Report::Msvc(prefix) => ReportView::Msvc(prefix@),
        }
    }
}

/// How an edge that has run tells the inputs that it found, or why it cannot.
pub open spec fn report(m: ManifestView, e: EdgeView, windows: bool) -> Result<
    ReportView,
    Seq<char>,
> {
    let kind = staleness::quoted(m, e, "deps"@, windows);
    let depfile = staleness::plain(m, e, "depfile"@);
    let prefix = staleness::quoted(m, e, "msvc_deps_prefix"@, windows);
    if kind.len() == 0 {
        Ok(ReportView::Nothing)
    } else if kind == "gcc"@ {
        if depfile.len() == 0 {
            Err("edge with deps=gcc but no depfile makes no sense"@)
        } else {
            Ok(ReportView::Gcc(depfile))
        }
    } else if kind == "msvc"@ {
        Ok(
            ReportView::Msvc(
                if prefix.len() == 0 {
                    "Note: including file: "@
                } else {
                    prefix
                },
            ),
        )
    } else {
        Err("unknown deps type '"@ + kind + "'"@)
    }
}

/// How an edge that has run tells the inputs that it found, or why it cannot.
pub fn report_of(manifest: &Manifest, edge: &Edge, windows: bool) -> (r: Result<Report, String>)
    ensures
        match report(manifest.deep_view(), edge.deep_view(), windows) {
            Ok(expected) => r matches Ok(report) && report@ == expected,
            Err(expected) => r matches Err(message) && message@ == expected,
        },
{
    let kind: String = render_binding(manifest, edge, "deps", windows);
    if is_empty(kind.as_str()) {
        return Ok(Report::Nothing);
    }
    if same_str(kind.as_str(), "gcc") {
        let depfile: String = render_unescaped_binding(manifest, edge, "depfile");
        if is_empty(depfile.as_str()) {
            return Err("edge with deps=gcc but no depfile makes no sense".to_owned());
        }
        return Ok(Report::Gcc(depfile));
    }
    if same_str(kind.as_str(), "msvc") {
        let prefix: String = render_binding(manifest, edge, "msvc_deps_prefix", windows);
        if is_empty(prefix.as_str()) {
            return Ok(Report::Msvc("Note: including file: ".to_owned()));
        }
        return Ok(Report::Msvc(prefix));
    }
    let mut message: String = "unknown deps type '".to_owned();
    message.append(kind.as_str());
    message.append("'");
    Err(message)
}

/// The inputs that a depfile names, or what is wrong with it. One that is empty, or
/// not there, names none.
pub open spec fn depfile_inputs(path: Seq<char>, source: Seq<char>, windows: bool) -> Result<
    Seq<Seq<char>>,
    Seq<char>,
> {
    if source.len() == 0 {
        Ok(seq![])
    } else {
        match depfile::depfile(source) {
            Ok(d) => Ok(dyndep_apply::canonical_list(d.inputs, windows)),
            Err(message) => Err("parsing depfile '"@ + path + "': "@ + message),
        }
    }
}

/// The inputs that a depfile names, or what is wrong with it.
pub fn read_depfile_inputs(path: &str, source: &str, windows: bool) -> (r: Result<
    Vec<String>,
    String,
>)
    ensures
        match depfile_inputs(path@, source@, windows) {
            Ok(expected) => r matches Ok(inputs) && text::strings(inputs@) == expected,
            Err(expected) => r matches Err(message) && message@ == expected,
        },
{
    if is_empty(source) {
        let inputs: Vec<String> = Vec::new();
        proof {
            assert(text::strings(inputs@) =~= seq![]);
        }
        return Ok(inputs);
    }
    match parse_depfile(source) {
        Ok(parsed) => Ok(normalize_depfile(parsed, windows).inputs),
        Err(error) => {
            let mut message: String = "parsing depfile '".to_owned();
            message.append(path);
            message.append("': ");
            message.append(error.as_str());
            Err(message)
        },
    }
}

} // verus!
