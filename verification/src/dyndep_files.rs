//! Which dyndep files can be loaded once edges have run.
use crate::asking;
use crate::asking::ask;
use crate::collections::map_new;
use crate::collections::set_contains;
use crate::collections::set_insert;
use crate::collections::set_new;
use crate::deps_log;
use crate::dyndep_plan;
use crate::manifest;
use crate::manifest::Edge;
use crate::manifest::Manifest;
use crate::manifest::ManifestView;
use crate::render::render_unescaped_binding;
use crate::soundness;
use crate::spell;
use crate::staleness::is_empty;
use crate::text;
use rapidhash::RapidHashMap;
use rapidhash::RapidHashSet;
use vstd::prelude::*;
use vstd::string::*;

verus! {

/// Whether a path is the dyndep file of one of the first `n` edges.
pub open spec fn is_dyndep_file(m: ManifestView, path: Seq<char>, n: int) -> bool {
    path.len() > 0 && exists|k: int|
        0 <= k < n && dyndep_plan::dyndep_of(m.scopes, #[trigger] m.edges[k]) == path
}

/// Those of the first `n` outputs that are dyndep files.
pub open spec fn dyndep_outputs(m: ManifestView, outputs: Seq<Seq<char>>, n: int) -> Seq<Seq<char>>
    decreases n,
{
    if n <= 0 {
        seq![]
    } else if is_dyndep_file(m, outputs[n - 1], m.edges.len() as int) {
        dyndep_outputs(m, outputs, n - 1).push(outputs[n - 1])
    } else {
        dyndep_outputs(m, outputs, n - 1)
    }
}

/// The dyndep files that the first `n` edges of `ran` have made.
pub open spec fn made_dyndeps(m: ManifestView, ran: Seq<usize>, n: int) -> Seq<Seq<char>>
    decreases n,
{
    if n <= 0 {
        seq![]
    } else {
        let outputs = manifest::outputs_of(m.edges[ran[n - 1] as int]);
        made_dyndeps(m, ran, n - 1) + dyndep_outputs(m, outputs, outputs.len() as int)
    }
}

/// Those of the first `n` of `list` that are not among `seen`, each once.
pub open spec fn unseen(list: Seq<Seq<char>>, seen: Set<Seq<char>>, n: int) -> Seq<Seq<char>>
    decreases n,
{
    if n <= 0 {
        seq![]
    } else {
        let before = unseen(list, seen, n - 1);
        if seen.contains(list[n - 1]) || before.contains(list[n - 1]) {
            before
        } else {
            before.push(list[n - 1])
        }
    }
}

/// The dyndep files to be loaded: those that edges have made and those that a build
/// waits for, as far as they have not been loaded.
pub open spec fn loadable(
    m: ManifestView,
    ran: Seq<usize>,
    pending: Seq<Seq<char>>,
    seen: Set<Seq<char>>,
) -> Seq<Seq<char>> {
    let list = made_dyndeps(m, ran, ran.len() as int) + pending;
    unseen(list, seen, list.len() as int)
}

fn all_dyndep_files(manifest: &Manifest) -> (r: RapidHashSet<String>)
    ensures
        forall|path: Seq<char>| #[trigger]
            r.deep_view().contains(path) <==> is_dyndep_file(
                manifest.deep_view(),
                path,
                manifest.edges@.len() as int,
            ),
{
    let ghost m = manifest.deep_view();
    let mut r: RapidHashSet<String> = set_new();
    let mut i: usize = 0;
    while i < manifest.edges.len()
        invariant
            m == manifest.deep_view(),
            i <= manifest.edges@.len(),
            forall|path: Seq<char>| #[trigger]
                r.deep_view().contains(path) <==> is_dyndep_file(m, path, i as int),
        decreases manifest.edges@.len() - i,
    {
        let edge: &Edge = &manifest.edges[i];
        let ghost before = r.deep_view();
        let file: String = render_unescaped_binding(manifest, edge, "dyndep");
        let ghost own = file@;
        proof {
            assert(m.edges[i as int] == edge.deep_view());
            assert(own == dyndep_plan::dyndep_of(m.scopes, m.edges[i as int]));
        }
        if !is_empty(file.as_str()) {
            set_insert(&mut r, file);
        }
        proof {
            assert forall|path: Seq<char>| #[trigger] r.deep_view().contains(path)
                <==> is_dyndep_file(m, path, i + 1) by {
                assert(before.contains(path) <==> is_dyndep_file(m, path, i as int));
                if is_dyndep_file(m, path, i as int) {
                    let k = choose|k: int|
                        0 <= k < i && dyndep_plan::dyndep_of(m.scopes, #[trigger] m.edges[k])
                            == path;
                    assert(dyndep_plan::dyndep_of(m.scopes, m.edges[k]) == path);
                }
            }
        }
        i += 1;
    }
    r
}

fn push_unseen(
    files: &mut Vec<String>,
    seen: &mut RapidHashSet<String>,
    file: &str,
    Ghost(list): Ghost<Seq<Seq<char>>>,
    Ghost(first): Ghost<Set<Seq<char>>>,
)
    requires
        text::strings(old(files)@) == unseen(list, first, list.len() as int),
        forall|path: Seq<char>| #[trigger]
            old(seen).deep_view().contains(path) <==> first.contains(path) || text::strings(
                old(files)@,
            ).contains(path),
    ensures
        text::strings(final(files)@) == unseen(list.push(file@), first, list.len() as int + 1),
        forall|path: Seq<char>| #[trigger]
            final(seen).deep_view().contains(path) <==> first.contains(path) || text::strings(
                final(files)@,
            ).contains(path),
{
    let ghost before = text::strings(files@);
    let ghost longer = list.push(file@);
    proof {
        lemma_unseen_prefix(list, longer, first, list.len() as int);
    }
    if set_insert(seen, file.to_owned()) {
        files.push(file.to_owned());
        proof {
            let after = text::strings(files@);
            assert(after =~= before.push(file@));
            assert forall|path: Seq<char>| #[trigger] seen.deep_view().contains(path)
                <==> first.contains(path) || after.contains(path) by {
                soundness::lemma_push_contains(before, file@, path);
            }
        }
    }
}

proof fn lemma_unseen_prefix(
    a: Seq<Seq<char>>,
    b: Seq<Seq<char>>,
    seen: Set<Seq<char>>,
    n: int,
)
    requires
        n <= a.len() <= b.len(),
        forall|i: int| 0 <= i < a.len() ==> a[i] == b[i],
    ensures
        unseen(a, seen, n) == unseen(b, seen, n),
    decreases n,
{
    if n > 0 {
        lemma_unseen_prefix(a, b, seen, n - 1);
    }
}

/// The dyndep files to be loaded once the edges of `ran` have run. They count as
/// loaded from then on.
pub fn files_to_load(
    manifest: &Manifest,
    ran: &[usize],
    pending: &Vec<String>,
    seen: &mut RapidHashSet<String>,
) -> (r: Vec<String>)
    requires
        forall|i: int| 0 <= i < ran@.len() ==> (#[trigger] ran@[i]) < manifest.edges@.len(),
    ensures
        text::strings(r@) == loadable(
            manifest.deep_view(),
            ran@,
            text::strings(pending@),
            old(seen).deep_view(),
        ),
        forall|path: Seq<char>| #[trigger]
            final(seen).deep_view().contains(path) <==> old(seen).deep_view().contains(path)
                || text::strings(r@).contains(path),
{
    let ghost m = manifest.deep_view();
    let ghost first = seen.deep_view();
    let known: RapidHashSet<String> = all_dyndep_files(manifest);
    let mut r: Vec<String> = Vec::new();
    let ghost mut list: Seq<Seq<char>> = seq![];
    let mut i: usize = 0;
    proof {
        assert(text::strings(r@) =~= seq![]);
    }
    while i < ran.len()
        invariant
            m == manifest.deep_view(),
            m.edges.len() == manifest.edges@.len(),
            i <= ran@.len(),
            forall|i: int| 0 <= i < ran@.len() ==> (#[trigger] ran@[i]) < manifest.edges@.len(),
            forall|path: Seq<char>| #[trigger]
                known.deep_view().contains(path) <==> is_dyndep_file(m, path, m.edges.len() as int),
            list == made_dyndeps(m, ran@, i as int),
            text::strings(r@) == unseen(list, first, list.len() as int),
            forall|path: Seq<char>| #[trigger]
                seen.deep_view().contains(path) <==> first.contains(path) || text::strings(
                    r@,
                ).contains(path),
        decreases ran@.len() - i,
    {
        let edge: &Edge = &manifest.edges[ran[i]];
        let outputs: Vec<&str> = edge.outputs();
        let ghost all = manifest::outputs_of(edge.deep_view());
        let ghost before = list;
        let mut j: usize = 0;
        proof {
            assert(m.edges[ran@[i as int] as int] == edge.deep_view());
            assert(before + dyndep_outputs(m, all, 0) =~= list);
        }
        while j < outputs.len()
            invariant
                m == manifest.deep_view(),
                m.edges.len() == manifest.edges@.len(),
                spell::views(outputs@) == all,
                j <= outputs@.len(),
                forall|path: Seq<char>| #[trigger]
                    known.deep_view().contains(path) <==> is_dyndep_file(
                        m,
                        path,
                        m.edges.len() as int,
                    ),
                list == before + dyndep_outputs(m, all, j as int),
                text::strings(r@) == unseen(list, first, list.len() as int),
                forall|path: Seq<char>| #[trigger]
                    seen.deep_view().contains(path) <==> first.contains(path) || text::strings(
                        r@,
                    ).contains(path),
            decreases outputs@.len() - j,
        {
            let path: &str = outputs[j];
            proof {
                assert(all[j as int] == path@);
            }
            if set_contains(&known, path) {
                push_unseen(&mut r, seen, path, Ghost(list), Ghost(first));
                proof {
                    assert(list.push(path@) =~= before + dyndep_outputs(m, all, j + 1));
                    list = list.push(path@);
                }
            }
            j += 1;
        }
        i += 1;
    }
    let ghost made = list;
    let ghost asked = text::strings(pending@);
    let mut k: usize = 0;
    proof {
        assert(made + asked.take(0) =~= list);
    }
    while k < pending.len()
        invariant
            asked == text::strings(pending@),
            k <= pending@.len(),
            list == made + asked.take(k as int),
            text::strings(r@) == unseen(list, first, list.len() as int),
            forall|path: Seq<char>| #[trigger]
                seen.deep_view().contains(path) <==> first.contains(path) || text::strings(
                    r@,
                ).contains(path),
        decreases pending@.len() - k,
    {
        let path: &str = pending[k].as_str();
        push_unseen(&mut r, seen, path, Ghost(list), Ghost(first));
        proof {
            assert(asked[k as int] == path@);
            assert(list.push(path@) =~= made + asked.take(k + 1));
            list = list.push(path@);
        }
        k += 1;
    }
    proof {
        assert(asked.take(k as int) =~= asked);
    }
    r
}

/// The dyndep files of the first `n` edges, as far as they are there, each once.
pub open spec fn existing(m: ManifestView, there: spec_fn(Seq<char>) -> bool, n: int) -> Seq<
    Seq<char>,
>
    decreases n,
{
    if n <= 0 {
        seq![]
    } else {
        let before = existing(m, there, n - 1);
        let file = dyndep_plan::dyndep_of(m.scopes, m.edges[n - 1]);
        if file.len() > 0 && there(file) && !before.contains(file) {
            before.push(file)
        } else {
            before
        }
    }
}

/// The dyndep files that are there. `is_there` tells which files there are; it is asked for
/// each file at most once, and its answers settle the result.
pub fn existing_dyndep_files<F: Fn(&str) -> bool>(manifest: &Manifest, is_there: F) -> (r: Vec<
    String,
>)
    requires
        forall|path: &str| #[trigger] is_there.requires((path,)),
    ensures
        forall|there: spec_fn(Seq<char>) -> bool| #[trigger]
            deps_log::tells(is_there, there) ==> text::strings(r@) == existing(
                manifest.deep_view(),
                there,
                manifest.edges@.len() as int,
            ),
        exists|answers: Map<Seq<char>, bool>|
            {
                &&& #[trigger] asking::are_answers(is_there, answers)
                &&& forall|there: spec_fn(Seq<char>) -> bool| #[trigger]
                    asking::agrees(there, answers) ==> text::strings(r@) == existing(
                        manifest.deep_view(),
                        there,
                        manifest.edges@.len() as int,
                    )
            },
{
    let ghost m = manifest.deep_view();
    let mut seen: RapidHashSet<String> = set_new();
    let mut answers: RapidHashMap<String, bool> = map_new();
    let mut r: Vec<String> = Vec::new();
    let mut i: usize = 0;
    proof {
        assert(text::strings(r@) =~= seq![]);
    }
    while i < manifest.edges.len()
        invariant
            m == manifest.deep_view(),
            i <= manifest.edges@.len(),
            asking::are_answers(is_there, answers.deep_view()),
            forall|path: &str| #[trigger] is_there.requires((path,)),
            forall|path: Seq<char>| #[trigger]
                seen.deep_view().contains(path) <==> text::strings(r@).contains(path),
            forall|there: spec_fn(Seq<char>) -> bool| #[trigger]
                asking::agrees(there, answers.deep_view()) ==> text::strings(r@) == existing(
                    m,
                    there,
                    i as int,
                ),
        decreases manifest.edges@.len() - i,
    {
        let edge: &Edge = &manifest.edges[i];
        let file: String = render_unescaped_binding(manifest, edge, "dyndep");
        let ghost before = text::strings(r@);
        proof {
            assert(m.edges[i as int] == edge.deep_view());
            assert(file@ == dyndep_plan::dyndep_of(m.scopes, m.edges[i as int]));
        }
        if !is_empty(file.as_str()) && ask(&is_there, &mut answers, file.as_str()) {
            if set_insert(&mut seen, file.as_str().to_owned()) {
                r.push(file);
                proof {
                    let after = text::strings(r@);
                    assert(after =~= before.push(file@));
                    assert forall|path: Seq<char>| #[trigger] seen.deep_view().contains(path)
                        <==> after.contains(path) by {
                        soundness::lemma_push_contains(before, file@, path);
                    }
                }
            }
        }
        i += 1;
    }
    proof {
        assert forall|there: spec_fn(Seq<char>) -> bool| #[trigger]
            deps_log::tells(is_there, there) implies text::strings(r@) == existing(
            m,
            there,
            manifest.edges@.len() as int,
        ) by {
            asking::lemma_telling_agrees(is_there, answers.deep_view(), there);
        }
    }
    r
}

} // verus!
