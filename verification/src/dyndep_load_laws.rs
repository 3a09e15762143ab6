//! What can be relied on where it is decided which dyndep files are loaded.
use crate::closure::GraphView;
use crate::closure_laws;
use crate::dyndep_files;
use crate::dyndep_plan;
use crate::manifest;
use crate::manifest::EdgeView;
use crate::manifest::ManifestView;
use crate::stale_laws;
use vstd::prelude::*;

verus! {

/// Whether a path is the dyndep file of edge `k`.
pub open spec fn is_file_of(m: ManifestView, path: Seq<char>, k: int) -> bool {
    0 <= k < m.edges.len() && path.len() > 0 && dyndep_plan::dyndep_of(m.scopes, m.edges[k])
        == path
}

/// Whether a path is an input of an edge, of whatever kind.
pub open spec fn takes(e: EdgeView, path: Seq<char>) -> bool {
    e.explicit_inputs.contains(path) || e.implicit_inputs.contains(path)
        || e.order_only_inputs.contains(path)
}

/// Whether edge `i` of those that ran makes a dyndep file of some edge.
pub open spec fn has_made(m: ManifestView, ran: Seq<usize>, path: Seq<char>, i: int, k: int) -> bool {
    0 <= i < ran.len() && closure_laws::makes(m.edges[ran[i] as int], path) && is_file_of(
        m,
        path,
        k,
    )
}

proof fn lemma_inputs(e: EdgeView, path: Seq<char>)
    ensures
        manifest::inputs_of(e).contains(path) <==> takes(e, path),
{
    stale_laws::lemma_contains(e.explicit_inputs, e.implicit_inputs, path);
    stale_laws::lemma_contains(e.explicit_inputs + e.implicit_inputs, e.order_only_inputs, path);
}

proof fn lemma_pushed(list: Seq<Seq<char>>, own: Seq<char>, path: Seq<char>)
    ensures
        list.push(own).contains(path) <==> list.contains(path) || path == own,
{
    let more = list.push(own);
    if list.contains(path) {
        assert(more[list.index_of(path)] == path);
    }
    if path == own {
        assert(more[list.len() as int] == path);
    }
    if more.contains(path) {
        let x = more.index_of(path);
        assert(more[x] == path);
        if x < list.len() {
            assert(list[x] == path);
        }
    }
}

proof fn lemma_dyndep_outputs(m: ManifestView, outputs: Seq<Seq<char>>, n: int, path: Seq<char>)
    requires
        0 <= n <= outputs.len(),
    ensures
        dyndep_files::dyndep_outputs(m, outputs, n).contains(path) <==> outputs.take(n).contains(
            path,
        ) && dyndep_files::is_dyndep_file(m, path, m.edges.len() as int),
    decreases n,
{
    if n > 0 {
        lemma_dyndep_outputs(m, outputs, n - 1, path);
        assert(outputs.take(n) =~= outputs.take(n - 1).push(outputs[n - 1]));
        lemma_pushed(outputs.take(n - 1), outputs[n - 1], path);
        lemma_pushed(dyndep_files::dyndep_outputs(m, outputs, n - 1), outputs[n - 1], path);
    } else {
        assert(outputs.take(0) =~= seq![]);
    }
}

proof fn lemma_made(m: ManifestView, ran: Seq<usize>, n: int, path: Seq<char>)
    requires
        0 <= n <= ran.len(),
    ensures
        dyndep_files::made_dyndeps(m, ran, n).contains(path) <==> exists|i: int, k: int|
            i < n && #[trigger] has_made(m, ran, path, i, k),
    decreases n,
{
    if n > 0 {
        lemma_made(m, ran, n - 1, path);
        let e = m.edges[ran[n - 1] as int];
        let outputs = manifest::outputs_of(e);
        let own = dyndep_files::dyndep_outputs(m, outputs, outputs.len() as int);
        let before = dyndep_files::made_dyndeps(m, ran, n - 1);
        lemma_dyndep_outputs(m, outputs, outputs.len() as int, path);
        assert(outputs.take(outputs.len() as int) =~= outputs);
        stale_laws::lemma_lists(e);
        stale_laws::lemma_contains(before, own, path);
        if own.contains(path) {
            let k = choose|k: int|
                0 <= k < m.edges.len() && dyndep_plan::dyndep_of(m.scopes, #[trigger] m.edges[k])
                    == path;
            assert(outputs.contains(path));
            assert(has_made(m, ran, path, n - 1, k));
        }
        if before.contains(path) {
            let (i, k) = choose|i: int, k: int|
                i < n - 1 && #[trigger] has_made(m, ran, path, i, k);
            assert(has_made(m, ran, path, i, k));
        }
        if exists|i: int, k: int| i < n && #[trigger] has_made(m, ran, path, i, k) {
            let (i, k) = choose|i: int, k: int| i < n && #[trigger] has_made(m, ran, path, i, k);
            if i == n - 1 {
                assert(outputs.contains(path));
                assert(dyndep_plan::dyndep_of(m.scopes, m.edges[k]) == path);
            }
        }
    }
}

proof fn lemma_unseen(list: Seq<Seq<char>>, seen: Set<Seq<char>>, n: int)
    requires
        0 <= n <= list.len(),
    ensures
        dyndep_files::unseen(list, seen, n).no_duplicates(),
        forall|path: Seq<char>| #[trigger]
            dyndep_files::unseen(list, seen, n).contains(path) <==> list.take(n).contains(path)
                && !seen.contains(path),
    decreases n,
{
    let all = dyndep_files::unseen(list, seen, n);
    if n > 0 {
        lemma_unseen(list, seen, n - 1);
        let before = dyndep_files::unseen(list, seen, n - 1);
        let own = list[n - 1];
        assert(list.take(n) =~= list.take(n - 1).push(own));
        assert forall|path: Seq<char>| #[trigger] all.contains(path) <==> list.take(n).contains(
            path,
        ) && !seen.contains(path) by {
            lemma_pushed(list.take(n - 1), own, path);
            lemma_pushed(before, own, path);
            assert(before.contains(path) <==> list.take(n - 1).contains(path) && !seen.contains(
                path,
            ));
        }
        if !before.contains(own) {
            lemma_no_duplicates(before, own);
        }
    } else {
        assert(list.take(0) =~= seq![]);
    }
}

proof fn lemma_no_duplicates(list: Seq<Seq<char>>, own: Seq<char>)
    requires
        list.no_duplicates(),
        !list.contains(own),
    ensures
        list.push(own).no_duplicates(),
{
    let more = list.push(own);
    assert forall|i: int, j: int|
        0 <= i < more.len() && 0 <= j < more.len() && i != j implies more[i] != more[j] by {
        if i == list.len() {
            assert(list.contains(list[j]));
        } else if j == list.len() {
            assert(list.contains(list[i]));
        }
    }
}

/// A dyndep file is loaded where an edge that ran has made it or a build waits for it, unless
/// it has been loaded before, and none is loaded twice.
pub proof fn law_files_to_load_are_made_or_awaited(
    m: ManifestView,
    ran: Seq<usize>,
    pending: Seq<Seq<char>>,
    seen: Set<Seq<char>>,
    path: Seq<char>,
)
    ensures
        dyndep_files::loadable(m, ran, pending, seen).no_duplicates(),
        dyndep_files::loadable(m, ran, pending, seen).contains(path) <==> !seen.contains(path)
            && (pending.contains(path) || exists|i: int, k: int| #[trigger]
            has_made(m, ran, path, i, k)),
{
    let made = dyndep_files::made_dyndeps(m, ran, ran.len() as int);
    let list = made + pending;
    lemma_unseen(list, seen, list.len() as int);
    assert(list.take(list.len() as int) =~= list);
    lemma_made(m, ran, ran.len() as int, path);
    stale_laws::lemma_contains(made, pending, path);
    assert(dyndep_files::unseen(list, seen, list.len() as int).contains(path) <==> list.contains(
        path,
    ) && !seen.contains(path));
    if exists|i: int, k: int| #[trigger] has_made(m, ran, path, i, k) {
        let (i, k) = choose|i: int, k: int| #[trigger] has_made(m, ran, path, i, k);
        assert(i < ran.len() && has_made(m, ran, path, i, k));
    }
}

proof fn lemma_existing(
    m: ManifestView,
    there: spec_fn(Seq<char>) -> bool,
    n: int,
)
    requires
        0 <= n <= m.edges.len(),
    ensures
        dyndep_files::existing(m, there, n).no_duplicates(),
        forall|path: Seq<char>| #[trigger]
            dyndep_files::existing(m, there, n).contains(path) <==> there(path) && exists|k: int|
                k < n && #[trigger] is_file_of(m, path, k),
    decreases n,
{
    let all = dyndep_files::existing(m, there, n);
    if n > 0 {
        lemma_existing(m, there, n - 1);
        let before = dyndep_files::existing(m, there, n - 1);
        let own = dyndep_plan::dyndep_of(m.scopes, m.edges[n - 1]);
        assert forall|path: Seq<char>| #[trigger] all.contains(path) <==> there(path) && exists|
            k: int,
        |
            k < n && #[trigger] is_file_of(m, path, k) by {
            lemma_pushed(before, own, path);
            assert(before.contains(path) <==> there(path) && exists|k: int|
                k < n - 1 && #[trigger] is_file_of(m, path, k));
            if path == own && own.len() > 0 {
                assert(is_file_of(m, path, n - 1));
            }
            if exists|k: int| k < n - 1 && #[trigger] is_file_of(m, path, k) {
                let k = choose|k: int| k < n - 1 && #[trigger] is_file_of(m, path, k);
                assert(is_file_of(m, path, k));
            }
            if exists|k: int| k < n && #[trigger] is_file_of(m, path, k) {
                let k = choose|k: int| k < n && #[trigger] is_file_of(m, path, k);
                if k == n - 1 {
                    assert(path == own);
                } else {
                    assert(k < n - 1 && is_file_of(m, path, k));
                }
            }
        }
        if !before.contains(own) {
            lemma_no_duplicates(before, own);
        }
    }
}

/// The dyndep files that are there are those of all edges, each once.
pub proof fn law_existing_files_are_those_of_edges(
    m: ManifestView,
    there: spec_fn(Seq<char>) -> bool,
    path: Seq<char>,
)
    ensures
        dyndep_files::existing(m, there, m.edges.len() as int).no_duplicates(),
        dyndep_files::existing(m, there, m.edges.len() as int).contains(path) <==> there(path)
            && exists|k: int| #[trigger] is_file_of(m, path, k),
{
    lemma_existing(m, there, m.edges.len() as int);
    if exists|k: int| #[trigger] is_file_of(m, path, k) {
        let k = choose|k: int| #[trigger] is_file_of(m, path, k);
        assert(k < m.edges.len() && is_file_of(m, path, k));
    }
}

/// Whether edge `i` of a list has a dyndep file.
pub open spec fn is_file_at(m: ManifestView, list: Seq<usize>, path: Seq<char>, i: int) -> bool {
    0 <= i < list.len() && is_file_of(m, path, list[i] as int)
}

proof fn lemma_pending(m: ManifestView, list: Seq<usize>, seen: Set<Seq<char>>, n: int)
    requires
        0 <= n <= list.len(),
        forall|i: int| 0 <= i < list.len() ==> (#[trigger] list[i]) < m.edges.len(),
    ensures
        dyndep_plan::pending(m, list, seen, n) is Ok <==> forall|path: Seq<char>, i: int|
            i < n && #[trigger] is_file_at(m, list, path, i) ==> takes(
                m.edges[list[i] as int],
                path,
            ),
        dyndep_plan::pending(m, list, seen, n) matches Ok(files) ==> files.no_duplicates()
            && forall|path: Seq<char>| #[trigger]
            files.contains(path) <==> !seen.contains(path) && exists|i: int|
                i < n && #[trigger] is_file_at(m, list, path, i),
    decreases n,
{
    if n > 0 {
        lemma_pending(m, list, seen, n - 1);
        let k = list[n - 1] as int;
        let e = m.edges[k];
        let own = dyndep_plan::dyndep_of(m.scopes, e);
        lemma_inputs(e, own);
        if dyndep_plan::pending(m, list, seen, n - 1) is Err {
            let (path, i) = choose|path: Seq<char>, i: int|
                i < n - 1 && #[trigger] is_file_at(m, list, path, i) && !takes(
                    m.edges[list[i] as int],
                    path,
                );
            assert(is_file_at(m, list, path, i));
        } else {
            let before = dyndep_plan::pending(m, list, seen, n - 1)->Ok_0;
            if own.len() > 0 {
                assert(is_file_at(m, list, own, n - 1));
            }
            if let Ok(files) = dyndep_plan::pending(m, list, seen, n) {
                assert forall|path: Seq<char>, i: int|
                    i < n && #[trigger] is_file_at(m, list, path, i) implies takes(
                    m.edges[list[i] as int],
                    path,
                ) by {
                    if i == n - 1 {
                        assert(path == own);
                    }
                }
                assert forall|path: Seq<char>| #[trigger]
                    files.contains(path) <==> !seen.contains(path) && exists|i: int|
                        i < n && #[trigger] is_file_at(m, list, path, i) by {
                    lemma_pushed(before, own, path);
                    assert(before.contains(path) <==> !seen.contains(path) && exists|i: int|
                        i < n - 1 && #[trigger] is_file_at(m, list, path, i));
                    if exists|i: int| i < n - 1 && #[trigger] is_file_at(m, list, path, i) {
                        let i = choose|i: int| i < n - 1 && #[trigger] is_file_at(m, list, path, i);
                        assert(is_file_at(m, list, path, i));
                    }
                    if exists|i: int| i < n && #[trigger] is_file_at(m, list, path, i) {
                        let i = choose|i: int| i < n && #[trigger] is_file_at(m, list, path, i);
                        if i < n - 1 {
                            assert(i < n - 1 && is_file_at(m, list, path, i));
                        } else {
                            assert(path == own);
                        }
                    }
                }
                if !before.contains(own) {
                    lemma_no_duplicates(before, own);
                }
            }
        }
    } else {
        assert(dyndep_plan::pending(m, list, seen, n) == Ok::<Seq<Seq<char>>, Seq<char>>(seq![]));
        assert(Seq::<Seq<char>>::empty().no_duplicates());
    }
}

/// The dyndep files that edges wait for are theirs, each once, but for those that have been
/// loaded. They can be told exactly where each is an input of its edge, of whatever kind.
pub proof fn law_awaited_files_are_those_of_edges(
    m: ManifestView,
    list: Seq<usize>,
    seen: Set<Seq<char>>,
)
    requires
        forall|i: int| 0 <= i < list.len() ==> (#[trigger] list[i]) < m.edges.len(),
    ensures
        dyndep_plan::pending(m, list, seen, list.len() as int) is Ok <==> forall|
            path: Seq<char>,
            i: int,
        | #[trigger]
            is_file_at(m, list, path, i) ==> takes(m.edges[list[i] as int], path),
        dyndep_plan::pending(m, list, seen, list.len() as int) matches Ok(files)
            ==> files.no_duplicates() && forall|path: Seq<char>| #[trigger]
            files.contains(path) <==> !seen.contains(path) && exists|i: int| #[trigger]
                is_file_at(m, list, path, i),
{
    let n = list.len() as int;
    lemma_pending(m, list, seen, n);
    if let Ok(files) = dyndep_plan::pending(m, list, seen, n) {
        assert forall|path: Seq<char>| #[trigger]
            files.contains(path) <==> !seen.contains(path) && exists|i: int| #[trigger]
                is_file_at(m, list, path, i) by {
            if exists|i: int| #[trigger] is_file_at(m, list, path, i) {
                let i = choose|i: int| #[trigger] is_file_at(m, list, path, i);
                assert(i < n && is_file_at(m, list, path, i));
            }
        }
    } else {
        let (path, i) = choose|path: Seq<char>, i: int|
            i < n && #[trigger] is_file_at(m, list, path, i) && !takes(
                m.edges[list[i] as int],
                path,
            );
        assert(is_file_at(m, list, path, i));
    }
}

/// Whether edge `i` of a list can run before dyndep files are loaded: it runs something, every
/// input is made by an edge or there, and nothing that leads to it waits for one of the files.
pub open spec fn is_safe(
    m: ManifestView,
    g: GraphView,
    list: Seq<usize>,
    files: Seq<Seq<char>>,
    there: spec_fn(Seq<char>) -> bool,
    i: int,
) -> bool {
    let e = g.edges[list[i] as int];
    &&& 0 <= i < list.len()
    &&& e.rule != "phony"@
    &&& !dyndep_plan::is_held(m, g, list, files, list[i])
    &&& forall|path: Seq<char>| #[trigger]
        takes(e, path) ==> g.outputs.contains_key(path) || there(path)
}

/// Whether a path is the first output of an edge.
pub open spec fn comes_first(e: EdgeView, path: Seq<char>) -> bool {
    if e.explicit_outputs.len() > 0 {
        path == e.explicit_outputs[0]
    } else {
        e.implicit_outputs.len() > 0 && path == e.implicit_outputs[0]
    }
}

spec fn is_first_of_safe(
    m: ManifestView,
    g: GraphView,
    list: Seq<usize>,
    files: Seq<Seq<char>>,
    there: spec_fn(Seq<char>) -> bool,
    path: Seq<char>,
    n: int,
) -> bool {
    exists|i: int|
        i < n && #[trigger] is_safe(m, g, list, files, there, i) && comes_first(
            g.edges[list[i] as int],
            path,
        )
}

proof fn lemma_has_inputs(g: GraphView, e: EdgeView, there: spec_fn(Seq<char>) -> bool)
    ensures
        dyndep_plan::has_inputs(g.outputs, e, there) <==> forall|path: Seq<char>| #[trigger]
            takes(e, path) ==> g.outputs.contains_key(path) || there(path),
{
    let list = manifest::inputs_of(e);
    if dyndep_plan::has_inputs(g.outputs, e, there) {
        assert forall|path: Seq<char>| #[trigger] takes(e, path) implies g.outputs.contains_key(
            path,
        ) || there(path) by {
            lemma_inputs(e, path);
            assert(list[list.index_of(path)] == path);
        }
    } else {
        let j = choose|j: int|
            0 <= j < list.len() && !(g.outputs.contains_key(#[trigger] list[j]) || there(list[j]));
        lemma_inputs(e, list[j]);
        assert(list.contains(list[j]));
        assert(takes(e, list[j]));
    }
}

proof fn lemma_safe_work(
    m: ManifestView,
    g: GraphView,
    list: Seq<usize>,
    files: Seq<Seq<char>>,
    there: spec_fn(Seq<char>) -> bool,
    before: Seq<Seq<char>>,
    n: int,
    path: Seq<char>,
)
    requires
        0 <= n <= list.len(),
    ensures
        dyndep_plan::with_safe_work(m, g, list, files, there, before, n).contains(path) <==> {
            ||| before.contains(path)
            ||| is_first_of_safe(m, g, list, files, there, path, n)
        },
    decreases n,
{
    if n > 0 {
        lemma_safe_work(m, g, list, files, there, before, n - 1, path);
        let earlier = dyndep_plan::with_safe_work(m, g, list, files, there, before, n - 1);
        let k = list[n - 1];
        let e = g.edges[k as int];
        let outputs = manifest::outputs_of(e);
        lemma_has_inputs(g, e, there);
        if outputs.len() > 0 {
            lemma_pushed(earlier, outputs[0], path);
        }
        assert(comes_first(e, path) <==> outputs.len() > 0 && path == outputs[0]);
        if is_first_of_safe(m, g, list, files, there, path, n - 1) {
            let i = choose|i: int|
                i < n - 1 && #[trigger] is_safe(m, g, list, files, there, i) && comes_first(
                    g.edges[list[i] as int],
                    path,
                );
            assert(is_safe(m, g, list, files, there, i));
        }
        if is_first_of_safe(m, g, list, files, there, path, n) {
            let i = choose|i: int|
                i < n && #[trigger] is_safe(m, g, list, files, there, i) && comes_first(
                    g.edges[list[i] as int],
                    path,
                );
            if i < n - 1 {
                assert(is_first_of_safe(m, g, list, files, there, path, n - 1));
            }
        }
        if is_safe(m, g, list, files, there, n - 1) && comes_first(e, path) {
            assert(is_first_of_safe(m, g, list, files, there, path, n));
        }
        assert(is_safe(m, g, list, files, there, n - 1) <==> !dyndep_plan::is_held(
            m,
            g,
            list,
            files,
            k,
        ) && e.rule != "phony"@ && dyndep_plan::has_inputs(g.outputs, e, there));
    }
}

proof fn lemma_made_files(g: GraphView, files: Seq<Seq<char>>, n: int, path: Seq<char>)
    requires
        0 <= n <= files.len(),
    ensures
        dyndep_plan::made_files(g.outputs, files, n).contains(path) <==> files.take(n).contains(
            path,
        ) && g.outputs.contains_key(path),
    decreases n,
{
    if n > 0 {
        lemma_made_files(g, files, n - 1, path);
        assert(files.take(n) =~= files.take(n - 1).push(files[n - 1]));
        lemma_pushed(files.take(n - 1), files[n - 1], path);
        lemma_pushed(dyndep_plan::made_files(g.outputs, files, n - 1), files[n - 1], path);
    } else {
        assert(files.take(0) =~= seq![]);
    }
}

/// Before dyndep files are loaded those that edges make are built, and with them the first
/// output of every edge that can run meanwhile. Nothing is built where no edge makes a file.
pub proof fn law_what_is_built_before_files_are_loaded(
    m: ManifestView,
    g: GraphView,
    list: Seq<usize>,
    files: Seq<Seq<char>>,
    there: spec_fn(Seq<char>) -> bool,
    path: Seq<char>,
)
    ensures
        dyndep_plan::prebuilt(m, g, list, files, there).contains(path) <==> (exists|
            file: Seq<char>,
        | #[trigger]
            files.contains(file) && g.outputs.contains_key(file)) && ((files.contains(path)
            && g.outputs.contains_key(path)) || exists|i: int| #[trigger]
            is_safe(m, g, list, files, there, i) && comes_first(g.edges[list[i] as int], path)),
{
    let n = list.len() as int;
    let made = dyndep_plan::made_files(g.outputs, files, files.len() as int);
    assert(files.take(files.len() as int) =~= files);
    lemma_made_files(g, files, files.len() as int, path);
    lemma_safe_work(m, g, list, files, there, made, n, path);
    if exists|file: Seq<char>| #[trigger] files.contains(file) && g.outputs.contains_key(file) {
        let file = choose|file: Seq<char>| #[trigger]
            files.contains(file) && g.outputs.contains_key(file);
        lemma_made_files(g, files, files.len() as int, file);
        assert(made.contains(file));
    }
    if made.len() > 0 {
        lemma_made_files(g, files, files.len() as int, made[0]);
        assert(made.contains(made[0]));
        assert(files.contains(made[0]) && g.outputs.contains_key(made[0]));
    }
    if exists|i: int| #[trigger]
        is_safe(m, g, list, files, there, i) && comes_first(g.edges[list[i] as int], path) {
        let i = choose|i: int| #[trigger]
            is_safe(m, g, list, files, there, i) && comes_first(g.edges[list[i] as int], path);
        assert(i < n && is_safe(m, g, list, files, there, i));
        assert(is_first_of_safe(m, g, list, files, there, path, n));
    }
}

} // verus!
