//! The targets of a build: what the names that are asked for stand for, and the
//! edges that make them.
use crate::asking;
use crate::asking::ask;
use crate::collections::map_get;
use crate::collections::map_new;
use crate::collections::set_contains;
use crate::collections::set_insert;
use crate::collections::set_new;
use crate::deps_log;
use crate::deps_log::DepsLog;
use crate::deps_log::LogView;
use crate::finalize::is_listed;
use crate::manifest;
use crate::manifest::unknown_target_message;
use crate::manifest::EdgeView;
use crate::manifest::Manifest;
use crate::manifest::ManifestView;
use crate::paths;
use crate::paths::canonicalize_owned_path_with_bits;
use crate::spell;
use crate::statement::is_known_path;
use crate::text;
use crate::text::chars_of;
use crate::text::copy_list;
use crate::text::same_str;
use crate::text::string_of;
use rapidhash::RapidHashMap;
use rapidhash::RapidHashSet;
use vstd::prelude::*;
use vstd::slice::slice_subrange;
use vstd::string::*;

verus! {

/// A path inside the build directory, if there is one.
pub open spec fn in_builddir(m: ManifestView, path: Seq<char>, windows: bool) -> Option<
    Seq<char>,
> {
    if m.variables.contains_key("builddir"@) && m.variables["builddir"@].len() > 0 {
        Some(paths::canonical(m.variables["builddir"@] + "/"@ + path, windows).0)
    } else {
        None
    }
}

fn path_in_builddir(manifest: &Manifest, path: &str, windows: bool) -> (r: Option<String>)
    ensures
        match r {
            Some(inner) => in_builddir(manifest.deep_view(), path@, windows) == Some(inner@),
            None => in_builddir(manifest.deep_view(), path@, windows) is None,
        },
{
    match map_get(&manifest.variables, "builddir") {
        Some(dir) => {
            proof {
                reveal_strlit("");
                assert(dir@.len() == 0 ==> dir@ =~= ""@);
            }
            if same_str(dir.as_str(), "") {
                None
            } else {
                let mut whole: String = dir.clone();
                whole.append("/");
                whole.append(path);
                Some(canonicalize_owned_path_with_bits(whole, windows).0)
            }
        },
        None => None,
    }
}

/// The first output of the first edge, from edge `i` on, that has an output and
/// `path` among its inputs.
pub open spec fn first_dependent(edges: Seq<EdgeView>, path: Seq<char>, i: int) -> Option<
    Seq<char>,
>
    decreases edges.len() - i,
{
    if i < 0 || i >= edges.len() {
        None
    } else if manifest::inputs_of(edges[i]).contains(path) && manifest::outputs_of(edges[i]).len()
        > 0 {
        Some(manifest::outputs_of(edges[i])[0])
    } else {
        first_dependent(edges, path, i + 1)
    }
}

/// The path that the name of a target stands for, or what is wrong with it. A
/// name that ends in `^` stands for the first output that depends on the path
/// before it.
pub open spec fn resolved(
    m: ManifestView,
    target: Seq<char>,
    log: Option<LogView>,
    use_builddir: bool,
    windows: bool,
) -> Result<Seq<char>, Seq<char>> {
    let whole = paths::canonical(target, windows).0;
    let caret = whole.len() > 0 && whole.last() == '^';
    let plain = if caret {
        whole.drop_last()
    } else {
        whole
    };
    let inner = in_builddir(m, plain, windows);
    let path = if use_builddir && !manifest::names_path(m.edges, plain) && inner is Some
        && manifest::names_path(m.edges, inner->Some_0) {
        inner->Some_0
    } else {
        plain
    };
    if target.len() == 0 {
        Err("empty path"@)
    } else if !manifest::names_path(m.edges, path) {
        Err(manifest::unknown_target(m.edges, path))
    } else if !caret {
        Ok(path)
    } else if first_dependent(m.edges, path, 0) is Some {
        Ok(first_dependent(m.edges, path, 0)->Some_0)
    } else if log is Some && deps_log::reverse_dep(log->Some_0, path, 0) is Some {
        Ok(deps_log::reverse_dep(log->Some_0, path, 0)->Some_0)
    } else {
        Err("'"@ + path + "' has no out edge"@)
    }
}

fn find_dependent(manifest: &Manifest, path: &str) -> (r: Option<String>)
    ensures
        match r {
            Some(output) => first_dependent(manifest.deep_view().edges, path@, 0) == Some(output@),
            None => first_dependent(manifest.deep_view().edges, path@, 0) is None,
        },
{
    let ghost edges = manifest.deep_view().edges;
    let mut i: usize = 0;
    while i < manifest.edges.len()
        invariant
            edges == manifest.deep_view().edges,
            i <= manifest.edges@.len(),
            first_dependent(edges, path@, 0) == first_dependent(edges, path@, i as int),
        decreases manifest.edges@.len() - i,
    {
        proof {
            assert(edges[i as int] == manifest.edges@[i as int].deep_view());
        }
        let outputs: Vec<&str> = manifest.edges[i].outputs();
        if is_listed(&manifest.edges[i].inputs(), path) && outputs.len() > 0 {
            proof {
                assert(spell::views(outputs@)[0] == outputs@[0]@);
            }
            return Some(outputs[0].to_owned());
        }
        i += 1;
    }
    None
}

pub open spec fn optional_log(log: Option<&DepsLog>) -> Option<LogView> {
    match log {
        Some(log) => Some(log@),
        None => None,
    }
}

/// Whether a function returned what is expected of it.
pub open spec fn is_outcome(
    r: Result<String, String>,
    expected: Result<Seq<char>, Seq<char>>,
) -> bool {
    match r {
        Ok(text) => expected == Ok::<Seq<char>, Seq<char>>(text@),
        Err(text) => expected == Err::<Seq<char>, Seq<char>>(text@),
    }
}

/// The path that the name of a target stands for, or what is wrong with it.
pub fn resolve_target_path(
    manifest: &Manifest,
    target: &str,
    deps_log: Option<&DepsLog>,
    use_builddir: bool,
    windows: bool,
) -> (r: Result<String, String>)
    ensures
        is_outcome(
            r,
            resolved(
                manifest.deep_view(),
                target@,
                optional_log(deps_log),
                use_builddir,
                windows,
            ),
        ),
{
    proof {
        reveal_strlit("");
        assert(target@.len() == 0 ==> target@ =~= ""@);
    }
    if same_str(target, "") {
        return Err("empty path".to_owned());
    }
    let (whole, _) = canonicalize_owned_path_with_bits(target.to_owned(), windows);
    let chars: Vec<char> = chars_of(whole.as_str());
    let n: usize = chars.len();
    let caret: bool = n > 0 && chars[n - 1] == '^';
    let mut path: String = if caret {
        proof {
            assert(chars@.subrange(0, n - 1) =~= whole@.drop_last());
        }
        string_of(slice_subrange(chars.as_slice(), 0, n - 1))
    } else {
        whole
    };
    let mut known: bool = is_known_path(manifest, path.as_str());
    if use_builddir && !known {
        if let Some(inner) = path_in_builddir(manifest, path.as_str(), windows) {
            if is_known_path(manifest, inner.as_str()) {
                path = inner;
                known = true;
            }
        }
    }
    if !known {
        return Err(unknown_target_message(manifest, path.as_str()));
    }
    if !caret {
        return Ok(path);
    }
    if let Some(output) = find_dependent(manifest, path.as_str()) {
        return Ok(output);
    }
    if let Some(log) = deps_log {
        if let Some(output) = log.first_reverse_dep(path.as_str()) {
            return Ok(output.to_owned());
        }
    }
    let mut message: String = "'".to_owned();
    message.append(path.as_str());
    message.append("' has no out edge");
    Err(message)
}

/// The path that a target that was asked for stands for. An output is found by
/// its path or by its path inside the build directory.
pub open spec fn requested_path(
    m: ManifestView,
    target: Seq<char>,
    outputs: Map<Seq<char>, usize>,
    log: LogView,
    windows: bool,
) -> Result<Seq<char>, Seq<char>> {
    let path = paths::canonical(target, windows).0;
    let inner = in_builddir(m, path, windows);
    let caret = path.len() > 0 && path.last() == '^';
    if !caret && outputs.contains_key(path) {
        Ok(path)
    } else if !caret && inner is Some && outputs.contains_key(inner->Some_0) {
        Ok(inner->Some_0)
    } else {
        resolved(m, target, Some(log), true, windows)
    }
}

fn find_requested(
    manifest: &Manifest,
    target: &str,
    outputs: &RapidHashMap<String, usize>,
    log: &DepsLog,
    windows: bool,
) -> (r: Result<String, String>)
    ensures
        is_outcome(
            r,
            requested_path(manifest.deep_view(), target@, outputs.deep_view(), log@, windows),
        ),
{
    let (path, _) = canonicalize_owned_path_with_bits(target.to_owned(), windows);
    let chars: Vec<char> = chars_of(path.as_str());
    let n: usize = chars.len();
    if !(n > 0 && chars[n - 1] == '^') {
        if map_get(outputs, path.as_str()).is_some() {
            return Ok(path);
        }
        if let Some(inner) = path_in_builddir(manifest, path.as_str(), windows) {
            if map_get(outputs, inner.as_str()).is_some() {
                return Ok(inner);
            }
        }
    }
    resolve_target_path(manifest, target, Some(log), true, windows)
}

/// The paths that the first `n` targets that were asked for stand for, or what
/// is wrong with the first that stands for none.
pub open spec fn requested_paths(
    m: ManifestView,
    requested: Seq<Seq<char>>,
    outputs: Map<Seq<char>, usize>,
    log: LogView,
    windows: bool,
    n: int,
) -> Result<Seq<Seq<char>>, Seq<char>>
    decreases n,
{
    if n <= 0 {
        Ok(seq![])
    } else {
        match requested_paths(m, requested, outputs, log, windows, n - 1) {
            Err(message) => Err(message),
            Ok(found) => match requested_path(m, requested[n - 1], outputs, log, windows) {
                Err(message) => Err(message),
                Ok(path) => Ok(found.push(path)),
            },
        }
    }
}

proof fn lemma_request_fails(
    m: ManifestView,
    requested: Seq<Seq<char>>,
    outputs: Map<Seq<char>, usize>,
    log: LogView,
    windows: bool,
    n: int,
    all: int,
)
    requires
        n <= all,
        requested_paths(m, requested, outputs, log, windows, n) is Err,
    ensures
        requested_paths(m, requested, outputs, log, windows, all) == requested_paths(
            m,
            requested,
            outputs,
            log,
            windows,
            n,
        ),
    decreases all,
{
    if n < all && all > 0 {
        lemma_request_fails(m, requested, outputs, log, windows, n, all - 1);
    }
}

/// Whether a path is an input of an edge.
pub open spec fn is_input(edges: Seq<EdgeView>, path: Seq<char>) -> bool {
    exists|i: int| 0 <= i < edges.len() && #[trigger] manifest::inputs_of(edges[i]).contains(path)
}

/// The first of `list`, from `j` on, that is no input.
pub open spec fn first_root(edges: Seq<EdgeView>, list: Seq<Seq<char>>, j: int) -> Option<
    Seq<char>,
>
    decreases list.len() - j,
{
    if j < 0 || j >= list.len() {
        None
    } else if !is_input(edges, list[j]) {
        Some(list[j])
    } else {
        first_root(edges, list, j + 1)
    }
}

/// Of each of the first `n` edges, the first output that is no input.
pub open spec fn roots(edges: Seq<EdgeView>, n: int) -> Seq<Seq<char>>
    decreases n,
{
    if n <= 0 {
        seq![]
    } else {
        match first_root(edges, manifest::outputs_of(edges[n - 1]), 0) {
            Some(root) => roots(edges, n - 1).push(root),
            None => roots(edges, n - 1),
        }
    }
}

/// The paths that are to be built: those that were asked for, else the defaults
/// of the manifest, else the outputs that nothing depends on.
pub open spec fn wanted(
    m: ManifestView,
    requested: Seq<Seq<char>>,
    outputs: Map<Seq<char>, usize>,
    log: LogView,
    windows: bool,
) -> Result<Seq<Seq<char>>, Seq<char>> {
    let all = roots(m.edges, m.edges.len() as int);
    if requested.len() > 0 {
        requested_paths(m, requested, outputs, log, windows, requested.len() as int)
    } else if m.defaults.len() > 0 {
        Ok(m.defaults)
    } else if all.len() == 0 && m.edges.len() > 0 {
        Err("could not determine root nodes of build graph"@)
    } else {
        Ok(all)
    }
}

/// The inputs of the edges.
fn all_inputs(manifest: &Manifest) -> (r: RapidHashSet<String>)
    ensures
        forall|path: Seq<char>| #[trigger]
            r.deep_view().contains(path) <==> is_input(manifest.deep_view().edges, path),
{
    let ghost edges = manifest.deep_view().edges;
    let mut r: RapidHashSet<String> = set_new();
    let mut i: usize = 0;
    while i < manifest.edges.len()
        invariant
            edges == manifest.deep_view().edges,
            i <= manifest.edges@.len(),
            forall|path: Seq<char>| #[trigger]
                r.deep_view().contains(path) <==> exists|k: int|
                    0 <= k < i && #[trigger] manifest::inputs_of(edges[k]).contains(path),
        decreases manifest.edges@.len() - i,
    {
        proof {
            assert(edges[i as int] == manifest.edges@[i as int].deep_view());
        }
        let inputs: Vec<&str> = manifest.edges[i].inputs();
        let ghost before = r.deep_view();
        let ghost list = manifest::inputs_of(edges[i as int]);
        let mut j: usize = 0;
        while j < inputs.len()
            invariant
                j <= inputs@.len(),
                spell::views(inputs@) == list,
                forall|path: Seq<char>| #[trigger]
                    r.deep_view().contains(path) <==> before.contains(path) || list.take(
                        j as int,
                    ).contains(path),
            decreases inputs@.len() - j,
        {
            let ghost inner = r.deep_view();
            proof {
                assert(spell::views(inputs@)[j as int] == inputs@[j as int]@);
                assert(list.take(j + 1) =~= list.take(j as int).push(list[j as int]));
            }
            set_insert(&mut r, inputs[j].to_owned());
            proof {
                let shorter = list.take(j as int);
                let longer = list.take(j + 1);
                assert forall|path: Seq<char>| #[trigger] r.deep_view().contains(path)
                    <==> before.contains(path) || longer.contains(path) by {
                    assert(longer[j as int] == list[j as int]);
                    if shorter.contains(path) {
                        let k = choose|k: int| 0 <= k < shorter.len() && shorter[k] == path;
                        assert(longer[k] == path);
                    }
                    if longer.contains(path) && path != list[j as int] {
                        let k = choose|k: int| 0 <= k < longer.len() && longer[k] == path;
                        assert(shorter[k] == path);
                    }
                }
            }
            j += 1;
        }
        proof {
            assert(list.take(j as int) =~= list);
            assert forall|path: Seq<char>| #[trigger] r.deep_view().contains(path)
                <==> exists|k: int|
                0 <= k < i + 1 && #[trigger] manifest::inputs_of(edges[k]).contains(path) by {
                if r.deep_view().contains(path) && before.contains(path) {
                    let k = choose|k: int|
                        0 <= k < i && #[trigger] manifest::inputs_of(edges[k]).contains(path);
                    assert(manifest::inputs_of(edges[k]).contains(path));
                }
                if exists|k: int|
                    0 <= k < i + 1 && #[trigger] manifest::inputs_of(edges[k]).contains(path) {
                    let k = choose|k: int|
                        0 <= k < i + 1 && #[trigger] manifest::inputs_of(edges[k]).contains(path);
                    if k < i {
                        assert(before.contains(path));
                    }
                }
            }
        }
        i += 1;
    }
    r
}

fn find_roots(manifest: &Manifest) -> (r: Vec<String>)
    ensures
        text::strings(r@) == roots(
            manifest.deep_view().edges,
            manifest.deep_view().edges.len() as int,
        ),
{
    let ghost edges = manifest.deep_view().edges;
    let inputs: RapidHashSet<String> = all_inputs(manifest);
    let mut r: Vec<String> = Vec::new();
    let mut i: usize = 0;
    proof {
        assert(text::strings(r@) =~= seq![]);
    }
    while i < manifest.edges.len()
        invariant
            edges == manifest.deep_view().edges,
            i <= manifest.edges@.len(),
            text::strings(r@) == roots(edges, i as int),
            forall|path: Seq<char>| #[trigger]
                inputs.deep_view().contains(path) <==> is_input(edges, path),
        decreases manifest.edges@.len() - i,
    {
        proof {
            assert(edges[i as int] == manifest.edges@[i as int].deep_view());
        }
        let outputs: Vec<&str> = manifest.edges[i].outputs();
        let ghost list = manifest::outputs_of(edges[i as int]);
        let ghost before = text::strings(r@);
        let mut j: usize = 0;
        while j < outputs.len() && set_contains(&inputs, outputs[j])
            invariant
                j <= outputs@.len(),
                spell::views(outputs@) == list,
                first_root(edges, list, 0) == first_root(edges, list, j as int),
                forall|path: Seq<char>| #[trigger]
                    inputs.deep_view().contains(path) <==> is_input(edges, path),
            decreases outputs@.len() - j,
        {
            proof {
                assert(spell::views(outputs@)[j as int] == outputs@[j as int]@);
            }
            j += 1;
        }
        if j < outputs.len() {
            proof {
                assert(spell::views(outputs@)[j as int] == outputs@[j as int]@);
                assert(inputs.deep_view().contains(list[j as int]) <==> is_input(
                    edges,
                    list[j as int],
                ));
            }
            r.push(outputs[j].to_owned());
            proof {
                assert(text::strings(r@) =~= before.push(list[j as int]));
            }
        }
        i += 1;
    }
    r
}

/// The paths that are to be built.
pub fn target_paths(
    manifest: &Manifest,
    requested: &Vec<String>,
    outputs: &RapidHashMap<String, usize>,
    log: &DepsLog,
    windows: bool,
) -> (r: Result<Vec<String>, String>)
    ensures
        match r {
            Ok(list) => wanted(
                manifest.deep_view(),
                text::strings(requested@),
                outputs.deep_view(),
                log@,
                windows,
            ) == Ok::<Seq<Seq<char>>, Seq<char>>(text::strings(list@)),
            Err(message) => wanted(
                manifest.deep_view(),
                text::strings(requested@),
                outputs.deep_view(),
                log@,
                windows,
            ) == Err::<Seq<Seq<char>>, Seq<char>>(message@),
        },
{
    let ghost m = manifest.deep_view();
    let ghost asked = text::strings(requested@);
    if requested.len() > 0 {
        let mut r: Vec<String> = Vec::new();
        let mut i: usize = 0;
        proof {
            assert(text::strings(r@) =~= seq![]);
        }
        while i < requested.len()
            invariant
                m == manifest.deep_view(),
                asked == text::strings(requested@),
                requested@.len() > 0,
                i <= requested@.len(),
                requested_paths(m, asked, outputs.deep_view(), log@, windows, i as int) == Ok::<
                    Seq<Seq<char>>,
                    Seq<char>,
                >(text::strings(r@)),
            decreases requested@.len() - i,
        {
            let ghost before = text::strings(r@);
            proof {
                assert(asked[i as int] == requested@[i as int]@);
            }
            match find_requested(manifest, requested[i].as_str(), outputs, log, windows) {
                Ok(path) => {
                    let ghost found = path@;
                    r.push(path);
                    proof {
                        assert(text::strings(r@) =~= before.push(found));
                    }
                },
                Err(message) => {
                    proof {
                        lemma_request_fails(
                            m,
                            asked,
                            outputs.deep_view(),
                            log@,
                            windows,
                            i + 1,
                            asked.len() as int,
                        );
                    }
                    return Err(message);
                },
            }
            i += 1;
        }
        return Ok(r);
    }
    if manifest.defaults.len() > 0 {
        return Ok(copy_list(&manifest.defaults));
    }
    let found: Vec<String> = find_roots(manifest);
    if found.len() == 0 && manifest.edges.len() > 0 {
        return Err("could not determine root nodes of build graph".to_owned());
    }
    Ok(found)
}

/// Whether a path is an input or a validation of an edge.
pub open spec fn uses(e: EdgeView, path: Seq<char>) -> bool {
    manifest::inputs_of(e).contains(path) || e.validations.contains(path)
}

/// Whether a path is an input or a validation of any edge.
pub open spec fn is_needed(edges: Seq<EdgeView>, path: Seq<char>) -> bool {
    exists|i: int| 0 <= i < edges.len() && uses(#[trigger] edges[i], path)
}

/// The edges of the first `n` paths, or what is wrong with the first that has no
/// edge and is no file that an edge needs. `there` tells which files there are.
pub open spec fn edges_of(
    m: ManifestView,
    list: Seq<Seq<char>>,
    outputs: Map<Seq<char>, usize>,
    there: spec_fn(Seq<char>) -> bool,
    n: int,
) -> Result<Set<usize>, Seq<char>>
    decreases n,
{
    if n <= 0 {
        Ok(Set::empty())
    } else {
        let path = list[n - 1];
        match edges_of(m, list, outputs, there, n - 1) {
            Err(message) => Err(message),
            Ok(found) => if outputs.contains_key(path) {
                Ok(found.insert(outputs[path]))
            } else if !is_needed(m.edges, path) {
                Err(manifest::unknown_target(m.edges, path))
            } else if there(path) {
                Ok(found)
            } else {
                Err("'"@ + path + "' missing and no known rule to make it"@)
            },
        }
    }
}

/// The edges that make what is to be built.
pub open spec fn selected(
    m: ManifestView,
    requested: Seq<Seq<char>>,
    outputs: Map<Seq<char>, usize>,
    log: LogView,
    windows: bool,
    there: spec_fn(Seq<char>) -> bool,
) -> Result<Set<usize>, Seq<char>> {
    match wanted(m, requested, outputs, log, windows) {
        Err(message) => Err(message),
        Ok(list) => edges_of(m, list, outputs, there, list.len() as int),
    }
}

pub open spec fn is_increasing(v: Seq<usize>) -> bool {
    forall|i: int, j: int| 0 <= i < j < v.len() ==> #[trigger] v[i] < #[trigger] v[j]
}

/// Whether a list tells the elements of a set in increasing order.
pub open spec fn lists(v: Seq<usize>, set: Set<usize>) -> bool {
    is_increasing(v) && forall|k: usize| #[trigger] v.contains(k) <==> set.contains(k)
}

/// Adds a number to an increasing list, unless it is in it.
fn insert_increasing(v: &mut Vec<usize>, k: usize)
    requires
        is_increasing(old(v)@),
    ensures
        is_increasing(final(v)@),
        forall|m: usize| #[trigger] final(v)@.contains(m) <==> old(v)@.contains(m) || m == k,
{
    let ghost before = v@;
    let mut i: usize = 0;
    while i < v.len() && v[i] < k
        invariant
            v@ == before,
            i <= v@.len(),
            forall|j: int| 0 <= j < i ==> #[trigger] v@[j] < k,
        decreases v@.len() - i,
    {
        i += 1;
    }
    if i < v.len() && v[i] == k {
        return;
    }
    v.insert(i, k);
    proof {
        assert(v@[i as int] == k);
        assert forall|m: usize| #[trigger] v@.contains(m) <==> before.contains(m) || m == k by {
            if before.contains(m) {
                let x = choose|x: int| 0 <= x < before.len() && before[x] == m;
                assert(v@[if x < i {
                    x
                } else {
                    x + 1
                }] == m);
            }
            if v@.contains(m) && m != k {
                let x = choose|x: int| 0 <= x < v@.len() && v@[x] == m;
                assert(before[if x < i {
                    x
                } else {
                    x - 1
                }] == m);
            }
        }
    }
}

fn needs(manifest: &Manifest, path: &str) -> (r: bool)
    ensures
        r == is_needed(manifest.deep_view().edges, path@),
{
    let ghost edges = manifest.deep_view().edges;
    let mut i: usize = 0;
    while i < manifest.edges.len()
        invariant
            edges == manifest.deep_view().edges,
            i <= manifest.edges@.len(),
            forall|k: int| 0 <= k < i ==> !uses(#[trigger] edges[k], path@),
        decreases manifest.edges@.len() - i,
    {
        proof {
            assert(edges[i as int] == manifest.edges@[i as int].deep_view());
        }
        let list: Vec<&str> = manifest.edges[i].inputs();
        if is_listed(&list, path) {
            proof {
                assert(uses(edges[i as int], path@));
            }
            return true;
        }
        let validations: &Vec<String> = &manifest.edges[i].validations;
        let mut j: usize = 0;
        while j < validations.len()
            invariant
                i < manifest.edges@.len(),
                edges[i as int].validations == text::strings(validations@),
                edges == manifest.deep_view().edges,
                edges.len() == manifest.edges@.len(),
                !manifest::inputs_of(edges[i as int]).contains(path@),
                forall|k: int| 0 <= k < i ==> !uses(#[trigger] edges[k], path@),
                j <= validations@.len(),
                forall|k: int| 0 <= k < j ==> #[trigger] validations@[k]@ != path@,
            decreases validations@.len() - j,
        {
            if same_str(validations[j].as_str(), path) {
                proof {
                    assert(edges[i as int].validations[j as int] == path@);
                    assert(uses(edges[i as int], path@));
                }
                return true;
            }
            j += 1;
        }
        proof {
            let held = edges[i as int].validations;
            if held.contains(path@) {
                let x = choose|x: int| 0 <= x < held.len() && held[x] == path@;
                assert(held[x] == validations@[x]@);
            }
            assert(!uses(edges[i as int], path@));
        }
        i += 1;
    }
    false
}

proof fn lemma_edges_fail(
    m: ManifestView,
    list: Seq<Seq<char>>,
    outputs: Map<Seq<char>, usize>,
    there: spec_fn(Seq<char>) -> bool,
    n: int,
    all: int,
)
    requires
        n <= all,
        edges_of(m, list, outputs, there, n) is Err,
    ensures
        edges_of(m, list, outputs, there, all) == edges_of(m, list, outputs, there, n),
    decreases all,
{
    if n < all && all > 0 {
        lemma_edges_fail(m, list, outputs, there, n, all - 1);
    }
}

/// Whether `r` is what is selected.
pub open spec fn is_selection(
    r: Result<Vec<usize>, String>,
    chosen: Result<Set<usize>, Seq<char>>,
) -> bool {
    match chosen {
        Ok(set) => r matches Ok(edges) && lists(edges@, set),
        Err(expected) => r matches Err(message) && message@ == expected,
    }
}

/// The edges that make what is to be built, in increasing order. `is_there` tells
/// which files there are; it is asked for each file at most once, and its answers settle the
/// result.
pub fn select_targets<F: Fn(&str) -> bool>(
    manifest: &Manifest,
    requested: &Vec<String>,
    outputs: &RapidHashMap<String, usize>,
    log: &DepsLog,
    windows: bool,
    is_there: F,
) -> (r: Result<Vec<usize>, String>)
    requires
        forall|path: &str| #[trigger] is_there.requires((path,)),
    ensures
        forall|there: spec_fn(Seq<char>) -> bool| #[trigger]
            deps_log::tells(is_there, there) ==> is_selection(
                r,
                selected(
                    manifest.deep_view(),
                    text::strings(requested@),
                    outputs.deep_view(),
                    log@,
                    windows,
                    there,
                ),
            ),
        exists|answers: Map<Seq<char>, bool>|
            {
                &&& #[trigger] asking::are_answers(is_there, answers)
                &&& forall|there: spec_fn(Seq<char>) -> bool| #[trigger]
                    asking::agrees(there, answers) ==> is_selection(
                        r,
                        selected(
                            manifest.deep_view(),
                            text::strings(requested@),
                            outputs.deep_view(),
                            log@,
                            windows,
                            there,
                        ),
                    )
            },
{
    let mut answers: RapidHashMap<String, bool> = map_new();
    let r: Result<Vec<usize>, String> = select_asking(
        manifest,
        requested,
        outputs,
        log,
        windows,
        &is_there,
        &mut answers,
    );
    proof {
        assert forall|there: spec_fn(Seq<char>) -> bool| #[trigger]
            deps_log::tells(is_there, there) implies is_selection(
            r,
            selected(
                manifest.deep_view(),
                text::strings(requested@),
                outputs.deep_view(),
                log@,
                windows,
                there,
            ),
        ) by {
            asking::lemma_telling_agrees(is_there, answers.deep_view(), there);
        }
    }
    r
}

fn select_asking<F: Fn(&str) -> bool>(
    manifest: &Manifest,
    requested: &Vec<String>,
    outputs: &RapidHashMap<String, usize>,
    log: &DepsLog,
    windows: bool,
    is_there: &F,
    answers: &mut RapidHashMap<String, bool>,
) -> (r: Result<Vec<usize>, String>)
    requires
        forall|path: &str| #[trigger] is_there.requires((path,)),
        asking::are_answers(*is_there, old(answers).deep_view()),
    ensures
        asking::are_answers(*is_there, final(answers).deep_view()),
        forall|there: spec_fn(Seq<char>) -> bool| #[trigger]
            asking::agrees(there, final(answers).deep_view()) ==> is_selection(
                r,
                selected(
                    manifest.deep_view(),
                    text::strings(requested@),
                    outputs.deep_view(),
                    log@,
                    windows,
                    there,
                ),
            ),
{
    let ghost m = manifest.deep_view();
    let paths: Vec<String> = match target_paths(manifest, requested, outputs, log, windows) {
        Ok(paths) => paths,
        Err(message) => {
            return Err(message);
        },
    };
    let ghost list = text::strings(paths@);
    let ghost asked = text::strings(requested@);
    let mut r: Vec<usize> = Vec::new();
    let mut i: usize = 0;
    while i < paths.len()
        invariant
            m == manifest.deep_view(),
            list == text::strings(paths@),
            asked == text::strings(requested@),
            wanted(m, asked, outputs.deep_view(), log@, windows) == Ok::<
                Seq<Seq<char>>,
                Seq<char>,
            >(list),
            i <= paths@.len(),
            is_increasing(r@),
            asking::are_answers(*is_there, answers.deep_view()),
            forall|path: &str| #[trigger] is_there.requires((path,)),
            forall|there: spec_fn(Seq<char>) -> bool| #[trigger]
                asking::agrees(there, answers.deep_view()) ==> (edges_of(
                    m,
                    list,
                    outputs.deep_view(),
                    there,
                    i as int,
                ) matches Ok(set) && lists(r@, set)),
        decreases paths@.len() - i,
    {
        let path: &str = paths[i].as_str();
        let ghost before = r@;
        proof {
            assert(list[i as int] == path@);
            assert forall|there: spec_fn(Seq<char>) -> bool| #[trigger]
                asking::agrees(there, answers.deep_view()) && edges_of(
                    m,
                    list,
                    outputs.deep_view(),
                    there,
                    i + 1,
                ) is Err implies selected(
                m,
                asked,
                outputs.deep_view(),
                log@,
                windows,
                there,
            ) == edges_of(m, list, outputs.deep_view(), there, i + 1) by {
                lemma_edges_fail(
                    m,
                    list,
                    outputs.deep_view(),
                    there,
                    i + 1,
                    list.len() as int,
                );
            }
        }
        if let Some(found) = map_get(outputs, path) {
            let k: usize = *found;
            insert_increasing(&mut r, k);
            proof {
                assert forall|there: spec_fn(Seq<char>) -> bool| #[trigger]
                    asking::agrees(there, answers.deep_view()) implies (edges_of(
                    m,
                    list,
                    outputs.deep_view(),
                    there,
                    i + 1,
                ) matches Ok(set) && lists(r@, set)) by {
                    let old_set = edges_of(m, list, outputs.deep_view(), there, i as int)->Ok_0;
                    assert(lists(before, old_set));
                    let set = old_set.insert(k);
                    assert forall|x: usize| #[trigger] r@.contains(x) <==> set.contains(x) by {
                        assert(before.contains(x) <==> old_set.contains(x));
                    }
                }
            }
        } else if !needs(manifest, path) {
            return Err(unknown_target_message(manifest, path));
        } else if !ask(is_there, answers, path) {
            let mut message: String = "'".to_owned();
            message.append(path);
            message.append("' missing and no known rule to make it");
            return Err(message);
        }
        i += 1;
    }
    Ok(r)
}

/// Only what is there or can be made is selected: every target that was asked for
/// is an output, or a file that an edge needs.
pub proof fn law_selected_targets_can_be_made(
    m: ManifestView,
    list: Seq<Seq<char>>,
    outputs: Map<Seq<char>, usize>,
    there: spec_fn(Seq<char>) -> bool,
    n: int,
)
    requires
        0 <= n <= list.len(),
        edges_of(m, list, outputs, there, n) is Ok,
    ensures
        forall|i: int|
            0 <= i < n ==> if outputs.contains_key(#[trigger] list[i]) {
                edges_of(m, list, outputs, there, n)->Ok_0.contains(outputs[list[i]])
            } else {
                is_needed(m.edges, list[i]) && there(list[i])
            },
    decreases n,
{
    if n > 0 {
        law_selected_targets_can_be_made(m, list, outputs, there, n - 1);
    }
}

} // verus!
