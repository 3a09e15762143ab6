//! What must hold of a manifest as a whole.
use crate::collections::map_get;
use crate::collections::map_insert;
use crate::collections::map_len;
use crate::collections::map_new;
use crate::diagnostic;
use crate::diagnostic::Diagnostic;
use crate::diagnostic::DiagnosticView;
use crate::finalize;
use crate::manifest;
use crate::manifest::Edge;
use crate::manifest::EdgeView;
use crate::manifest::Manifest;
use crate::manifest::ManifestView;
use crate::numbers;
use crate::numbers::decimal_of;
use crate::spell;
use crate::version;
use crate::version::required_version_incompatible;
use rapidhash::RapidHashMap;
use vstd::prelude::*;
use vstd::string::*;

verus! {

/// The first output, from output `j` of edge `i` on, that is an output already,
/// as the numbers of its edge, of itself and of the edge that has it. `seen`
/// holds the outputs before it with their edges.
pub open spec fn conflict_from(
    edges: Seq<EdgeView>,
    i: int,
    j: int,
    seen: Map<Seq<char>, usize>,
) -> Option<(int, int, usize)>
    decreases edges.len() - i, manifest::outputs_of(edges[i]).len() - j,
{
    let outputs = manifest::outputs_of(edges[i]);
    if i < 0 || i >= edges.len() || j < 0 {
        None
    } else if j >= outputs.len() {
        conflict_from(edges, i + 1, 0, seen)
    } else if seen.contains_key(outputs[j]) {
        Some((i, j, seen[outputs[j]]))
    } else {
        conflict_from(edges, i, j + 1, seen.insert(outputs[j], i as usize))
    }
}

/// The first output that is an output already.
pub open spec fn conflict(edges: Seq<EdgeView>) -> Option<(int, int, usize)> {
    conflict_from(edges, 0, 0, Map::empty())
}

/// What is said of output `j` of edge `i`, which edge `first` has already.
pub open spec fn conflict_diagnostic(
    edges: Seq<EdgeView>,
    i: int,
    j: int,
    first: usize,
    ninja: bool,
) -> DiagnosticView {
    let e = edges[i];
    let p = edges[first as int];
    let output = manifest::outputs_of(e)[j];
    if ninja {
        diagnostic::bare_diagnostic(
            e.source,
            finalize::line_behind(e.line, e.bindings),
            1,
            if first == i {
                output + " is defined as an output multiple times"@
            } else {
                "multiple rules generate "@ + output
            },
        )
    } else {
        diagnostic::bare_diagnostic(
            e.source,
            e.line,
            1,
            "multiple rules generate '"@ + output + "' (first at "@ + p.source + ":"@
                + numbers::numeral(p.line as nat, false) + ")"@,
        )
    }
}

/// What is wrong with a manifest, if anything is: it requires a later version,
/// or two rules generate one output.
pub open spec fn manifest_error(m: ManifestView, ninja: bool) -> Option<DiagnosticView> {
    if m.variables.contains_key("ninja_required_version"@) && version::precedes(
        "1.14.0"@,
        m.variables["ninja_required_version"@],
    ) {
        Some(
            diagnostic::bare_diagnostic(
                m.root,
                1,
                1,
                "manifest requires Ninja "@ + m.variables["ninja_required_version"@]
                    + "; Knight supports syntax through 1.14.0"@,
            ),
        )
    } else {
        match conflict(m.edges) {
            Some((i, j, first)) => Some(conflict_diagnostic(m.edges, i, j, first, ninja)),
            None => None,
        }
    }
}

fn describe_conflict(edge: &Edge, first: &Edge, same: bool, output: &str, ninja: bool) -> (r: Diagnostic)
    ensures
        forall|edges: Seq<EdgeView>, i: int, j: int, p: usize|
            0 <= i < edges.len() && p < edges.len() && edges[i] == edge.deep_view()
                && edges[p as int] == first.deep_view() && same == (p == i)
                && manifest::outputs_of(edges[i])[j] == output@ ==> r.deep_view()
                == #[trigger] conflict_diagnostic(edges, i, j, p, ninja),
{
    if ninja {
        let behind: usize = edge.line.saturating_add(map_len(&edge.bindings)).saturating_add(1);
        if same {
            let mut message: String = output.to_owned();
            message.append(" is defined as an output multiple times");
            Diagnostic::new(edge.source.as_str(), behind, 1, message.as_str())
        } else {
            let mut message: String = "multiple rules generate ".to_owned();
            message.append(output);
            Diagnostic::new(edge.source.as_str(), behind, 1, message.as_str())
        }
    } else {
        let mut message: String = "multiple rules generate '".to_owned();
        message.append(output);
        message.append("' (first at ");
        message.append(first.source.as_str());
        message.append(":");
        message.append(decimal_of(first.line).as_str());
        message.append(")");
        Diagnostic::new(edge.source.as_str(), edge.line, 1, message.as_str())
    }
}

/// What is wrong with a manifest, if anything is.
pub fn validate(manifest: &Manifest, ninja: bool) -> (r: Option<Diagnostic>)
    ensures
        match r {
            Some(d) => manifest_error(manifest.deep_view(), ninja) == Some(d.deep_view()),
            None => manifest_error(manifest.deep_view(), ninja) is None,
        },
{
    let ghost m = manifest.deep_view();
    if let Some(required) = map_get(&manifest.variables, "ninja_required_version") {
        if required_version_incompatible(required.as_str(), "1.14.0") {
            let mut message: String = "manifest requires Ninja ".to_owned();
            message.append(required.as_str());
            message.append("; Knight supports syntax through 1.14.0");
            return Some(Diagnostic::new(manifest.root.as_str(), 1, 1, message.as_str()));
        }
    }
    let mut seen: RapidHashMap<String, usize> = map_new();
    let mut i: usize = 0;
    while i < manifest.edges.len()
        invariant
            m == manifest.deep_view(),
            i <= manifest.edges@.len(),
            forall|path: Seq<char>| #[trigger]
                seen.deep_view().contains_key(path) ==> seen.deep_view()[path] < i,
            conflict(m.edges) == conflict_from(m.edges, i as int, 0, seen.deep_view()),
            conflict(m.edges) is Some ==> manifest_error(m, ninja) == Some(
                conflict_diagnostic(
                    m.edges,
                    conflict(m.edges)->Some_0.0,
                    conflict(m.edges)->Some_0.1,
                    conflict(m.edges)->Some_0.2,
                    ninja,
                ),
            ),
        decreases manifest.edges@.len() - i,
    {
        let edge: &Edge = &manifest.edges[i];
        let outputs: Vec<&str> = edge.outputs();
        proof {
            assert(m.edges[i as int] == edge.deep_view());
        }
        let mut j: usize = 0;
        while j < outputs.len()
            invariant
                m == manifest.deep_view(),
                i < manifest.edges@.len(),
                m.edges[i as int] == edge.deep_view(),
                *edge == manifest.edges@[i as int],
                spell::views(outputs@) == manifest::outputs_of(m.edges[i as int]),
                j <= outputs@.len(),
                forall|path: Seq<char>| #[trigger]
                    seen.deep_view().contains_key(path) ==> seen.deep_view()[path] <= i,
                conflict(m.edges) == conflict_from(
                    m.edges,
                    i as int,
                    j as int,
                    seen.deep_view(),
                ),
                conflict(m.edges) is Some ==> manifest_error(m, ninja) == Some(
                    conflict_diagnostic(
                        m.edges,
                        conflict(m.edges)->Some_0.0,
                        conflict(m.edges)->Some_0.1,
                        conflict(m.edges)->Some_0.2,
                        ninja,
                    ),
                ),
            decreases outputs@.len() - j,
        {
            let output: &str = outputs[j];
            proof {
                assert(spell::views(outputs@)[j as int] == output@);
            }
            if let Some(found) = map_get(&seen, output) {
                let first: usize = *found;
                let previous: &Edge = &manifest.edges[first];
                proof {
                    assert(m.edges[first as int] == previous.deep_view());
                }
                let d: Diagnostic = describe_conflict(edge, previous, first == i, output, ninja);
                proof {
                    assert(d.deep_view() == conflict_diagnostic(
                        m.edges,
                        i as int,
                        j as int,
                        first,
                        ninja,
                    ));
                }
                return Some(d);
            }
            map_insert(&mut seen, output.to_owned(), i);
            j += 1;
        }
        i += 1;
    }
    None
}

/// Where no output conflicts, two outputs are the same only if they are the
/// same output of the same edge.
pub open spec fn outputs_are_unique(edges: Seq<EdgeView>) -> bool {
    forall|a: int, b: int, c: int, d: int|
        0 <= a < edges.len() && 0 <= c < edges.len() && 0 <= b < manifest::outputs_of(
            edges[a],
        ).len() && 0 <= d < manifest::outputs_of(edges[c]).len() && #[trigger] manifest::outputs_of(
            edges[a],
        )[b] == #[trigger] manifest::outputs_of(edges[c])[d] ==> a == c && b == d
}

/// Whether output `b` of edge `a` comes before output `j` of edge `i`.
spec fn comes_before(a: int, b: int, i: int, j: int) -> bool {
    a < i || (a == i && b < j)
}

proof fn lemma_no_conflict_from(edges: Seq<EdgeView>, i: int, j: int, seen: Map<Seq<char>, usize>)
    requires
        0 <= i <= edges.len(),
        0 <= j,
        i < edges.len() ==> j <= manifest::outputs_of(edges[i]).len(),
        i == edges.len() ==> j == 0,
        forall|a: int, b: int|
            0 <= a < edges.len() && 0 <= b < manifest::outputs_of(edges[a]).len()
                && comes_before(a, b, i, j) ==> seen.contains_key(
                #[trigger] manifest::outputs_of(edges[a])[b],
            ),
        conflict_from(edges, i, j, seen) is None,
    ensures
        forall|a: int, b: int, c: int, d: int|
            0 <= a < edges.len() && 0 <= c < edges.len() && 0 <= b < manifest::outputs_of(
                edges[a],
            ).len() && 0 <= d < manifest::outputs_of(edges[c]).len() && comes_before(a, b, c, d)
                && !comes_before(c, d, i, j) ==> #[trigger] manifest::outputs_of(edges[a])[b]
                != #[trigger] manifest::outputs_of(edges[c])[d],
    decreases edges.len() - i, if i < edges.len() { manifest::outputs_of(edges[i]).len() - j } else { 0 },
{
    if i < edges.len() {
        let outputs = manifest::outputs_of(edges[i]);
        if j >= outputs.len() {
            lemma_no_conflict_from(edges, i + 1, 0, seen);
        } else {
            let next = seen.insert(outputs[j], i as usize);
            lemma_no_conflict_from(edges, i, j + 1, next);
        }
    }
}

/// In a manifest without errors every path is at most once the output of an edge.
pub proof fn law_valid_manifest_has_unique_outputs(m: ManifestView, ninja: bool)
    requires
        manifest_error(m, ninja) is None,
    ensures
        outputs_are_unique(m.edges),
{
    lemma_no_conflict_from(m.edges, 0, 0, Map::empty());
    assert forall|a: int, b: int, c: int, d: int|
        0 <= a < m.edges.len() && 0 <= c < m.edges.len() && 0 <= b < manifest::outputs_of(
            m.edges[a],
        ).len() && 0 <= d < manifest::outputs_of(m.edges[c]).len()
            && #[trigger] manifest::outputs_of(m.edges[a])[b] == #[trigger] manifest::outputs_of(
            m.edges[c],
        )[d] implies a == c && b == d by {
        if comes_before(a, b, c, d) {
            assert(!comes_before(c, d, 0, 0));
        } else if comes_before(c, d, a, b) {
            assert(!comes_before(a, b, 0, 0));
        }
    }
}

proof fn lemma_no_conflict(edges: Seq<EdgeView>, i: int, j: int, seen: Map<Seq<char>, usize>)
    requires
        outputs_are_unique(edges),
        0 <= i <= edges.len(),
        0 <= j,
        i < edges.len() ==> j <= manifest::outputs_of(edges[i]).len(),
        forall|path: Seq<char>| #[trigger]
            seen.contains_key(path) ==> exists|a: int, b: int|
                0 <= a < edges.len() && 0 <= b < manifest::outputs_of(edges[a]).len()
                    && comes_before(a, b, i, j) && #[trigger] manifest::outputs_of(edges[a])[b]
                    == path,
    ensures
        conflict_from(edges, i, j, seen) is None,
    decreases
            edges.len() - i,
            if i < edges.len() {
                manifest::outputs_of(edges[i]).len() - j
            } else {
                0
            },
{
    if i < edges.len() {
        let outputs = manifest::outputs_of(edges[i]);
        if j >= outputs.len() {
            assert forall|path: Seq<char>| #[trigger] seen.contains_key(path) implies exists|
                a: int,
                b: int,
            |
                0 <= a < edges.len() && 0 <= b < manifest::outputs_of(edges[a]).len()
                    && comes_before(a, b, i + 1, 0) && #[trigger] manifest::outputs_of(edges[a])[b]
                    == path by {
                let (a, b) = choose|a: int, b: int|
                    0 <= a < edges.len() && 0 <= b < manifest::outputs_of(edges[a]).len()
                        && comes_before(a, b, i, j) && #[trigger] manifest::outputs_of(edges[a])[b]
                        == path;
                assert(comes_before(a, b, i + 1, 0));
            }
            lemma_no_conflict(edges, i + 1, 0, seen);
        } else {
            let path = outputs[j];
            if seen.contains_key(path) {
                let (a, b) = choose|a: int, b: int|
                    0 <= a < edges.len() && 0 <= b < manifest::outputs_of(edges[a]).len()
                        && comes_before(a, b, i, j) && #[trigger] manifest::outputs_of(edges[a])[b]
                        == path;
                assert(manifest::outputs_of(edges[a])[b] == manifest::outputs_of(edges[i])[j]);
            }
            let more = seen.insert(path, i as usize);
            assert forall|x: Seq<char>| #[trigger] more.contains_key(x) implies exists|
                a: int,
                b: int,
            |
                0 <= a < edges.len() && 0 <= b < manifest::outputs_of(edges[a]).len()
                    && comes_before(a, b, i, j + 1) && #[trigger] manifest::outputs_of(edges[a])[b]
                    == x by {
                if x == path {
                    assert(comes_before(i, j, i, j + 1));
                    assert(manifest::outputs_of(edges[i])[j] == x);
                } else {
                    assert(seen.contains_key(x));
                    let (a, b) = choose|a: int, b: int|
                        0 <= a < edges.len() && 0 <= b < manifest::outputs_of(edges[a]).len()
                            && comes_before(a, b, i, j) && #[trigger] manifest::outputs_of(
                            edges[a],
                        )[b] == x;
                    assert(comes_before(a, b, i, j + 1));
                }
            }
            lemma_no_conflict(edges, i, j + 1, more);
        }
    }
}

/// A manifest that requires no version, and in which no path is an output twice, is valid.
pub proof fn law_manifest_with_unique_outputs_is_valid(m: ManifestView, ninja: bool)
    requires
        !m.variables.contains_key("ninja_required_version"@),
        outputs_are_unique(m.edges),
    ensures
        manifest_error(m, ninja) is None,
{
    lemma_no_conflict(m.edges, 0, 0, Map::empty());
}

/// A manifest in which two edges make one path, by explicit or implicit outputs, is not valid.
pub proof fn law_output_of_two_edges_is_refused(
    m: ManifestView,
    ninja: bool,
    i: int,
    j: int,
    path: Seq<char>,
)
    requires
        0 <= i < j < m.edges.len(),
        m.edges[i].explicit_outputs.contains(path) || m.edges[i].implicit_outputs.contains(path),
        m.edges[j].explicit_outputs.contains(path) || m.edges[j].implicit_outputs.contains(path),
    ensures
        manifest_error(m, ninja) is Some,
{
    if manifest_error(m, ninja) is None {
        law_valid_manifest_has_unique_outputs(m, ninja);
        let a = lemma_output_place(m.edges[i], path);
        let b = lemma_output_place(m.edges[j], path);
        assert(manifest::outputs_of(m.edges[i])[a] == manifest::outputs_of(m.edges[j])[b]);
    }
}

proof fn lemma_output_place(e: EdgeView, path: Seq<char>) -> (x: int)
    requires
        e.explicit_outputs.contains(path) || e.implicit_outputs.contains(path),
    ensures
        0 <= x < manifest::outputs_of(e).len(),
        manifest::outputs_of(e)[x] == path,
{
    if e.explicit_outputs.contains(path) {
        e.explicit_outputs.index_of(path)
    } else {
        e.explicit_outputs.len() + e.implicit_outputs.index_of(path)
    }
}

} // verus!
