//! What can be relied on where it is decided which edges must run.
use crate::build_log;
use crate::closure_laws;
use crate::freshness;
use crate::freshness::World;
use crate::manifest;
use crate::manifest::EdgeView;
use crate::manifest::ManifestView;
use crate::staleness;
use crate::staleness::Situation;
use crate::staleness::Verdict;
use vstd::prelude::*;

verus! {

/// Whether an edge is made from a path: an explicit or an implicit input.
pub open spec fn is_made_from(e: EdgeView, path: Seq<char>) -> bool {
    e.explicit_inputs.contains(path) || e.implicit_inputs.contains(path)
}

/// Whether a path is a file or an output.
pub open spec fn is_known(s: Situation, path: Seq<char>) -> bool {
    s.world.times.contains_key(path) || s.world.outputs.contains_key(path)
}

/// Whether a path has a time.
pub open spec fn has_time(w: World, path: Seq<char>) -> bool {
    freshness::time(w, path, seq![]) is Ok
}

/// The time of a path that has one.
pub open spec fn time(w: World, path: Seq<char>) -> u128 {
    freshness::time(w, path, seq![])->Ok_0
}

/// Whether the value of a binding of an edge is neither empty nor `0`.
pub open spec fn is_set(m: ManifestView, s: Situation, e: EdgeView, name: Seq<char>) -> bool {
    let value = staleness::quoted(m, e, name, s.windows);
    value.len() > 0 && value != seq!['0']
}

/// Whether a path is an output of an edge and the log has it.
pub open spec fn is_recorded(s: Situation, e: EdgeView, output: Seq<char>) -> bool {
    closure_laws::makes(e, output) && s.log.contains_key(output)
}

/// Whether an output of an edge is not there.
pub open spec fn is_absent(s: Situation, e: EdgeView, output: Seq<char>) -> bool {
    closure_laws::makes(e, output) && !s.world.times.contains_key(output)
}

/// Whether the log does not have an output of an edge.
pub open spec fn is_unrecorded(s: Situation, e: EdgeView, output: Seq<char>) -> bool {
    closure_laws::makes(e, output) && !s.log.contains_key(output)
}

/// Whether an output of an edge was made before a time.
pub open spec fn is_older(s: Situation, e: EdgeView, output: Seq<char>, t: u128) -> bool {
    closure_laws::makes(e, output) && s.world.times.contains_key(output)
        && s.world.times[output] < t
}

/// Whether the log has an output of an edge with a time before another.
pub open spec fn is_recorded_before(
    s: Situation,
    e: EdgeView,
    output: Seq<char>,
    t: u128,
) -> bool {
    is_recorded(s, e, output) && s.log[output].mtime < t
}

/// Whether the times of an edge's outputs count: they are all there, and the edge does not go
/// by the log, as one does that has `restat` and all its outputs in the log.
pub open spec fn outputs_count(m: ManifestView, s: Situation, e: EdgeView) -> bool {
    &&& forall|output: Seq<char>| !#[trigger] is_absent(s, e, output)
    &&& is_set(m, s, e, "restat"@) ==> exists|output: Seq<char>| #[trigger]
        is_unrecorded(s, e, output)
}

/// Whether an input makes an edge run: it was made anew, it is newer than everything, or it is
/// newer than an output that counts.
pub open spec fn moves(m: ManifestView, s: Situation, e: EdgeView, path: Seq<char>) -> bool {
    ||| s.world.outputs.contains_key(path) && s.ran[s.world.outputs[path] as int]
        && !s.cleaned.contains(path)
    ||| time(s.world, path) == u128::MAX
    ||| outputs_count(m, s, e) && exists|output: Seq<char>| #[trigger]
        is_older(s, e, output, time(s.world, path))
}

/// Whether an input is newer than the log says of an output.
pub open spec fn outdates(s: Situation, e: EdgeView, path: Seq<char>) -> bool {
    exists|output: Seq<char>| #[trigger] is_recorded_before(s, e, output, time(s.world, path))
}

/// Whether the log does not have an output of an edge with the command that the edge runs.
pub open spec fn runs_another(
    m: ManifestView,
    s: Situation,
    e: EdgeView,
    output: Seq<char>,
) -> bool {
    closure_laws::makes(e, output) && !(s.log.contains_key(output)
        && s.log[output].command_hash == build_log::command_hash(what_is_run(m, s, e)))
}

/// What an edge runs: its command, and behind it what it writes to its response file, if it
/// writes anything.
pub open spec fn what_is_run(m: ManifestView, s: Situation, e: EdgeView) -> Seq<char> {
    let command = staleness::quoted(m, e, "command"@, s.windows);
    let contents = staleness::quoted(m, e, "rspfile_content"@, s.windows);
    if contents == Seq::<char>::empty() {
        command
    } else {
        command + ";rspfile="@ + contents
    }
}

/// Whether a declared input makes edge `k` run.
pub open spec fn is_cause(m: ManifestView, s: Situation, k: usize, path: Seq<char>) -> bool {
    let e = m.edges[k as int];
    is_made_from(e, path) && (moves(m, s, e, path) || outdates(s, e, path))
}

/// Whether an input that was found when edge `k` last ran makes it run again.
pub open spec fn is_found_cause(m: ManifestView, s: Situation, k: usize, path: Seq<char>) -> bool {
    let e = m.edges[k as int];
    s.discovered[k as int].contains(path) && (!is_known(s, path) || moves(m, s, e, path)
        || outdates(s, e, path))
}

pub proof fn lemma_contains(a: Seq<Seq<char>>, b: Seq<Seq<char>>, path: Seq<char>)
    ensures
        (a + b).contains(path) <==> a.contains(path) || b.contains(path),
{
    let both = a + b;
    if both.contains(path) {
        let x = both.index_of(path);
        assert(both[x] == path);
        if x < a.len() {
            assert(a[x] == path);
        } else {
            assert(b[x - a.len()] == path);
        }
    }
    if a.contains(path) {
        assert(both[a.index_of(path)] == path);
    }
    if b.contains(path) {
        assert(both[a.len() + b.index_of(path)] == path);
    }
}

pub proof fn lemma_lists(e: EdgeView)
    ensures
        forall|path: Seq<char>| #[trigger]
            freshness::sources(e).contains(path) <==> is_made_from(e, path),
        forall|path: Seq<char>| #[trigger]
            manifest::outputs_of(e).contains(path) <==> closure_laws::makes(e, path),
{
    assert forall|path: Seq<char>| #[trigger]
        freshness::sources(e).contains(path) <==> is_made_from(e, path) by {
        lemma_contains(e.explicit_inputs, e.implicit_inputs, path);
    }
    assert forall|path: Seq<char>| #[trigger]
        manifest::outputs_of(e).contains(path) <==> closure_laws::makes(e, path) by {
        lemma_contains(e.explicit_outputs, e.implicit_outputs, path);
    }
}

pub proof fn lemma_oldest_is_least(
    times: Map<Seq<char>, u128>,
    outputs: Seq<Seq<char>>,
    i: int,
    oldest: u128,
)
    requires
        0 <= i <= outputs.len(),
    ensures
        staleness::oldest_of(times, outputs, i, oldest) matches Ok(t) ==> t <= oldest && forall|
            j: int,
        |
            i <= j < outputs.len() ==> t <= times[#[trigger] outputs[j]],
    decreases outputs.len() - i,
{
    if i < outputs.len() && times.contains_key(outputs[i]) {
        let t = times[outputs[i]];
        lemma_oldest_is_least(
            times,
            outputs,
            i + 1,
            if t < oldest {
                t
            } else {
                oldest
            },
        );
    }
}

pub proof fn lemma_logged(m: ManifestView, s: Situation, e: EdgeView)
    ensures
        staleness::goes_by_log(m, e, s.log, s.windows) <==> is_set(m, s, e, "restat"@) && !exists|
            output: Seq<char>,
        | #[trigger]
            is_unrecorded(s, e, output),
{
    let outputs = manifest::outputs_of(e);
    lemma_lists(e);
    reveal_strlit("0");
    assert("0"@ =~= seq!['0']);
    if staleness::are_logged(s.log, outputs) {
        assert forall|output: Seq<char>| !#[trigger] is_unrecorded(s, e, output) by {
            if closure_laws::makes(e, output) {
                assert(outputs.contains(output));
                assert(outputs[outputs.index_of(output)] == output);
            }
        }
    } else {
        let i = choose|i: int| 0 <= i < outputs.len() && !s.log.contains_key(#[trigger] outputs[i]);
        assert(outputs.contains(outputs[i]));
        assert(is_unrecorded(s, e, outputs[i]));
    }
}

proof fn lemma_moves(m: ManifestView, s: Situation, e: EdgeView, path: Seq<char>)
    ensures
        staleness::forces(s, path, staleness::compared(m, s, e)) <==> moves(m, s, e, path),
        staleness::is_logged_before(s, manifest::outputs_of(e), path) <==> outdates(s, e, path),
{
    let outputs = manifest::outputs_of(e);
    let t = time(s.world, path);
    lemma_lists(e);
    lemma_logged(m, s, e);
    staleness::lemma_oldest(s.world.times, outputs, 0, u128::MAX);
    lemma_oldest_is_least(s.world.times, outputs, 0, u128::MAX);
    let start = staleness::oldest_of(s.world.times, outputs, 0, u128::MAX);
    if start is Err {
        let j = choose|j: int|
            0 <= j < outputs.len() && !s.world.times.contains_key(#[trigger] outputs[j]);
        assert(outputs.contains(outputs[j]));
        assert(is_absent(s, e, outputs[j]));
    } else {
        assert forall|output: Seq<char>| !#[trigger] is_absent(s, e, output) by {
            if closure_laws::makes(e, output) {
                assert(outputs.contains(output));
                assert(outputs[outputs.index_of(output)] == output);
            }
        }
        if t > start->Ok_0 {
            let j = choose|j: int|
                0 <= j < outputs.len() && s.world.times[#[trigger] outputs[j]] == start->Ok_0;
            assert(outputs.contains(outputs[j]));
            assert(!is_absent(s, e, outputs[j]));
            assert(is_older(s, e, outputs[j], t));
        }
        if exists|output: Seq<char>| #[trigger] is_older(s, e, output, t) {
            let output = choose|output: Seq<char>| #[trigger] is_older(s, e, output, t);
            assert(outputs.contains(output));
            assert(outputs[outputs.index_of(output)] == output);
        }
    }
    if staleness::is_logged_before(s, outputs, path) {
        let i = choose|i: int|
            0 <= i < outputs.len() && s.log.contains_key(#[trigger] outputs[i])
                && s.log[outputs[i]].mtime < staleness::time_of(s, path);
        assert(outputs.contains(outputs[i]));
        assert(is_recorded_before(s, e, outputs[i], t));
    }
    if outdates(s, e, path) {
        let output = choose|output: Seq<char>| #[trigger] is_recorded_before(s, e, output, t);
        assert(outputs.contains(output));
        assert(outputs[outputs.index_of(output)] == output);
    }
}

pub proof fn lemma_another(m: ManifestView, s: Situation, e: EdgeView, generator: bool)
    ensures
        build_log::is_changed(
            s.log,
            manifest::outputs_of(e),
            build_log::command_hash(staleness::logged_command(m, e, s.windows)),
            generator,
        ) <==> !generator && exists|output: Seq<char>| #[trigger] runs_another(m, s, e, output),
{
    let outputs = manifest::outputs_of(e);
    lemma_lists(e);
    let contents = staleness::quoted(m, e, "rspfile_content"@, s.windows);
    assert(contents.len() == 0 ==> contents =~= Seq::<char>::empty());
    let hash = build_log::command_hash(staleness::logged_command(m, e, s.windows));
    assert(hash == build_log::command_hash(what_is_run(m, s, e)));
    if exists|output: Seq<char>| #[trigger] runs_another(m, s, e, output) {
        let output = choose|output: Seq<char>| #[trigger] runs_another(m, s, e, output);
        assert(outputs.contains(output));
        assert(outputs[outputs.index_of(output)] == output);
    }
    if build_log::is_changed(s.log, outputs, hash, false) {
        let i = choose|i: int|
            0 <= i < outputs.len() && !(s.log.contains_key(#[trigger] outputs[i])
                && s.log[outputs[i]].command_hash == hash);
        assert(outputs.contains(outputs[i]));
        assert(runs_another(m, s, e, outputs[i]));
    }
}

proof fn lemma_verdict(m: ManifestView, s: Situation, k: usize)
    requires
        staleness::evaluated(m, s, k) is Ok,
    ensures
        ({
            let e = m.edges[k as int];
            let v = staleness::evaluated(m, s, k)->Ok_0;
            let by_times = staleness::judged_by_times(m, s, k)->Ok_0;
            &&& v.dirty == staleness::must_run(m, s, k)
            &&& v.newest_input == by_times.newest
            &&& forall|j: int|
                0 <= j < freshness::sources(e).len() ==> time(
                    s.world,
                    #[trigger] freshness::sources(e)[j],
                ) <= v.newest_input
            &&& forall|j: int|
                0 <= j < s.discovered[k as int].len() && is_known(s, s.discovered[k as int][j])
                    ==> time(s.world, #[trigger] s.discovered[k as int][j]) <= v.newest_input
            &&& v.newest_input == 0 || (exists|j: int|
                0 <= j < freshness::sources(e).len() && time(
                    s.world,
                    #[trigger] freshness::sources(e)[j],
                ) == v.newest_input) || (exists|j: int|
                0 <= j < s.discovered[k as int].len() && is_known(s, s.discovered[k as int][j])
                    && time(s.world, #[trigger] s.discovered[k as int][j]) == v.newest_input)
        }),
{
    let e = m.edges[k as int];
    let outputs = manifest::outputs_of(e);
    let start = staleness::oldest_of(s.world.times, outputs, 0, u128::MAX);
    let v = match start {
        Ok(_) => Verdict { dirty: false, reason: seq![], newest: 0 },
        Err(output) => Verdict {
            dirty: true,
            reason: "output "@ + output + " doesn't exist"@,
            newest: 0,
        },
    };
    let oldest = staleness::compared(m, s, e);
    let list = freshness::sources(e);
    let found = s.discovered[k as int];
    staleness::law_edge_runs_exactly_where_it_must(m, s, k);
    staleness::lemma_judged_sources(s, list, 0, oldest, v);
    let declared = staleness::judged_sources(s, list, 0, oldest, v)->Ok_0;
    staleness::lemma_judged_found(s, found, 0, oldest, declared);
    let last = staleness::judged_found(s, found, 0, oldest, declared)->Ok_0;
    assert(staleness::judged_by_times(m, s, k) == Ok::<Verdict, Seq<char>>(last));
    assert forall|j: int| 0 <= j < list.len() implies time(s.world, #[trigger] list[j])
        <= last.newest by {
        assert(staleness::time_of(s, list[j]) <= declared.newest);
    }
    assert forall|j: int|
        0 <= j < found.len() && is_known(s, found[j]) implies time(s.world, #[trigger] found[j])
        <= last.newest by {
        assert(staleness::time_of(s, found[j]) <= last.newest);
    }
    if last.newest != 0 {
        if last.newest == declared.newest {
            let j = choose|j: int|
                0 <= j < list.len() && staleness::time_of(s, #[trigger] list[j]) == last.newest;
            assert(time(s.world, list[j]) == last.newest);
        } else {
            let j = choose|j: int|
                0 <= j < found.len() && !staleness::is_lost(s, found[j]) && staleness::time_of(
                    s,
                    #[trigger] found[j],
                ) == last.newest;
            assert(time(s.world, found[j]) == last.newest);
        }
    }
}

/// An edge that can be looked at must run exactly where an output is not there, an explicit,
/// implicit or found input makes it run, the log does not have an output with the command that
/// the edge runs, or nothing is known of what the edge found. Generators do not mind the last
/// two.
pub proof fn law_edge_is_dirty_where_it_has_a_cause(m: ManifestView, s: Situation, k: usize)
    requires
        staleness::evaluated(m, s, k) is Ok,
    ensures
        ({
            let e = m.edges[k as int];
            let generator = is_set(m, s, e, "generator"@);
            staleness::evaluated(m, s, k)->Ok_0.dirty <==> {
                ||| exists|output: Seq<char>| #[trigger] is_absent(s, e, output)
                ||| exists|path: Seq<char>| #[trigger] is_cause(m, s, k, path)
                ||| exists|path: Seq<char>| #[trigger] is_found_cause(m, s, k, path)
                ||| !generator && exists|output: Seq<char>| #[trigger]
                    runs_another(m, s, e, output)
                ||| !generator && s.missing[k as int]
            }
        }),
{
    let e = m.edges[k as int];
    let outputs = manifest::outputs_of(e);
    let list = freshness::sources(e);
    let found = s.discovered[k as int];
    let oldest = staleness::compared(m, s, e);
    let generator = is_set(m, s, e, "generator"@);
    reveal_strlit("0");
    assert("0"@ =~= seq!['0']);
    lemma_verdict(m, s, k);
    lemma_lists(e);
    lemma_another(m, s, e, generator);
    assert forall|path: Seq<char>| (#[trigger] staleness::forces(s, path, oldest) <==> moves(
        m,
        s,
        e,
        path,
    )) && (staleness::is_logged_before(s, outputs, path) <==> outdates(s, e, path)) by {
        lemma_moves(m, s, e, path);
    }
    if exists|i: int|
        0 <= i < outputs.len() && !s.world.times.contains_key(#[trigger] outputs[i]) {
        let i = choose|i: int|
            0 <= i < outputs.len() && !s.world.times.contains_key(#[trigger] outputs[i]);
        assert(outputs.contains(outputs[i]));
        assert(is_absent(s, e, outputs[i]));
    }
    if exists|output: Seq<char>| #[trigger] is_absent(s, e, output) {
        let output = choose|output: Seq<char>| #[trigger] is_absent(s, e, output);
        assert(outputs.contains(output));
        assert(outputs[outputs.index_of(output)] == output);
    }
    if staleness::any_forces(s, list, 0, oldest) {
        let j = choose|j: int|
            0 <= j < list.len() && staleness::forces(s, #[trigger] list[j], oldest);
        assert(list.contains(list[j]));
        assert(is_cause(m, s, k, list[j]));
    }
    if exists|j: int|
        0 <= j < list.len() && staleness::is_logged_before(s, outputs, #[trigger] list[j]) {
        let j = choose|j: int|
            0 <= j < list.len() && staleness::is_logged_before(s, outputs, #[trigger] list[j]);
        assert(list.contains(list[j]));
        assert(staleness::forces(s, list[j], oldest) <==> moves(m, s, e, list[j]));
        assert(is_cause(m, s, k, list[j]));
    }
    if exists|path: Seq<char>| #[trigger] is_cause(m, s, k, path) {
        let path = choose|path: Seq<char>| #[trigger] is_cause(m, s, k, path);
        assert(list.contains(path));
        let j = list.index_of(path);
        assert(staleness::forces(s, list[j], oldest) <==> moves(m, s, e, list[j]));
        if staleness::forces(s, list[j], oldest) {
            assert(staleness::any_forces(s, list, 0, oldest));
        } else {
            assert(staleness::is_logged_before(s, outputs, list[j]));
        }
    }
    if staleness::any_found_forces(s, found, 0, oldest) {
        let j = choose|j: int|
            0 <= j < found.len() && (staleness::is_lost(s, #[trigger] found[j])
                || staleness::forces(s, found[j], oldest));
        assert(found.contains(found[j]));
        assert(is_found_cause(m, s, k, found[j]));
    }
    if exists|j: int|
        0 <= j < found.len() && !staleness::is_lost(s, found[j]) && staleness::is_logged_before(
            s,
            outputs,
            #[trigger] found[j],
        ) {
        let j = choose|j: int|
            0 <= j < found.len() && !staleness::is_lost(s, found[j])
                && staleness::is_logged_before(s, outputs, #[trigger] found[j]);
        assert(found.contains(found[j]));
        assert(staleness::forces(s, found[j], oldest) <==> moves(m, s, e, found[j]));
        assert(is_found_cause(m, s, k, found[j]));
    }
    if exists|path: Seq<char>| #[trigger] is_found_cause(m, s, k, path) {
        let path = choose|path: Seq<char>| #[trigger] is_found_cause(m, s, k, path);
        let j = found.index_of(path);
        assert(found[j] == path);
        assert(staleness::forces(s, found[j], oldest) <==> moves(m, s, e, found[j]));
        if staleness::is_lost(s, found[j]) || staleness::forces(s, found[j], oldest) {
            assert(staleness::any_found_forces(s, found, 0, oldest));
        } else {
            assert(staleness::is_logged_before(s, outputs, found[j]));
        }
    }
}

/// Where all outputs of an edge are there and `restat` is not set, an explicit, implicit or
/// found input that is later than one of them makes the edge run.
pub proof fn law_later_input_makes_an_edge_run(
    m: ManifestView,
    s: Situation,
    k: usize,
    path: Seq<char>,
    output: Seq<char>,
)
    requires
        staleness::evaluated(m, s, k) is Ok,
        ({
            let e = m.edges[k as int];
            &&& e.explicit_inputs.contains(path) || e.implicit_inputs.contains(path)
                || s.discovered[k as int].contains(path)
            &&& !is_set(m, s, e, "restat"@)
            &&& forall|o: Seq<char>| #[trigger]
                closure_laws::makes(e, o) ==> s.world.times.contains_key(o)
            &&& closure_laws::makes(e, output)
            &&& s.world.times[output] < time(s.world, path)
        }),
    ensures
        staleness::evaluated(m, s, k)->Ok_0.dirty,
{
    let e = m.edges[k as int];
    law_edge_is_dirty_where_it_has_a_cause(m, s, k);
    assert(is_older(s, e, output, time(s.world, path)));
    assert forall|o: Seq<char>| !#[trigger] is_absent(s, e, o) by {}
    assert(moves(m, s, e, path));
    if is_made_from(e, path) {
        assert(is_cause(m, s, k, path));
    } else {
        assert(is_found_cause(m, s, k, path));
    }
}

/// The newest input of an edge is the latest of the times of its explicit, implicit and found
/// inputs, as far as they are there, and zero where there is none.
pub proof fn law_newest_input_is_the_latest(m: ManifestView, s: Situation, k: usize)
    requires
        staleness::evaluated(m, s, k) is Ok,
    ensures
        ({
            let e = m.edges[k as int];
            let newest = staleness::evaluated(m, s, k)->Ok_0.newest_input;
            &&& forall|path: Seq<char>| #[trigger]
                e.explicit_inputs.contains(path) ==> time(s.world, path) <= newest
            &&& forall|path: Seq<char>| #[trigger]
                e.implicit_inputs.contains(path) ==> time(s.world, path) <= newest
            &&& forall|path: Seq<char>| #[trigger]
                s.discovered[k as int].contains(path) && is_known(s, path) ==> time(s.world, path)
                    <= newest
            &&& newest == 0 || exists|path: Seq<char>|
                (is_made_from(e, path) || (s.discovered[k as int].contains(path) && is_known(
                    s,
                    path,
                ))) && #[trigger] time(s.world, path) == newest
        }),
{
    let e = m.edges[k as int];
    let list = freshness::sources(e);
    let found = s.discovered[k as int];
    let newest = staleness::evaluated(m, s, k)->Ok_0.newest_input;
    lemma_verdict(m, s, k);
    lemma_lists(e);
    assert forall|path: Seq<char>| #[trigger] is_made_from(e, path) implies time(s.world, path)
        <= newest by {
        assert(list.contains(path));
        assert(list[list.index_of(path)] == path);
    }
    assert forall|path: Seq<char>| #[trigger] e.explicit_inputs.contains(path) implies time(
        s.world,
        path,
    ) <= newest by {
        assert(is_made_from(e, path));
    }
    assert forall|path: Seq<char>| #[trigger] e.implicit_inputs.contains(path) implies time(
        s.world,
        path,
    ) <= newest by {
        assert(is_made_from(e, path));
    }
    assert forall|path: Seq<char>| #[trigger] found.contains(path) && is_known(
        s,
        path,
    ) implies time(s.world, path) <= newest by {
        assert(found[found.index_of(path)] == path);
    }
    if newest != 0 {
        if exists|j: int| 0 <= j < list.len() && time(s.world, #[trigger] list[j]) == newest {
            let j = choose|j: int|
                0 <= j < list.len() && time(s.world, #[trigger] list[j]) == newest;
            assert(list.contains(list[j]));
            assert(is_made_from(e, list[j]));
        } else {
            let j = choose|j: int|
                0 <= j < found.len() && is_known(s, found[j]) && time(s.world, #[trigger] found[j])
                    == newest;
            assert(found.contains(found[j]));
        }
    }
}

proof fn lemma_sources_have_times(
    s: Situation,
    list: Seq<Seq<char>>,
    i: int,
    oldest: Option<u128>,
    v: Verdict,
)
    requires
        0 <= i <= list.len(),
    ensures
        staleness::judged_sources(s, list, i, oldest, v) is Ok <==> forall|j: int|
            i <= j < list.len() ==> has_time(s.world, #[trigger] list[j]),
    decreases list.len() - i,
{
    if i < list.len() {
        if let Ok(t) = freshness::time(s.world, list[i], seq![]) {
            lemma_sources_have_times(
                s,
                list,
                i + 1,
                oldest,
                staleness::judged(s, v, list[i], t, "input "@, oldest),
            );
        } else {
            assert(!has_time(s.world, list[i]));
        }
    }
}

proof fn lemma_found_have_times(
    s: Situation,
    list: Seq<Seq<char>>,
    i: int,
    oldest: Option<u128>,
    v: Verdict,
)
    requires
        0 <= i <= list.len(),
    ensures
        staleness::judged_found(s, list, i, oldest, v) is Ok <==> forall|j: int|
            i <= j < list.len() && is_known(s, list[j]) ==> has_time(s.world, #[trigger] list[j]),
    decreases list.len() - i,
{
    if i < list.len() {
        if !is_known(s, list[i]) {
            let next = if v.dirty {
                v
            } else {
                Verdict {
                    dirty: true,
                    reason: "discovered input '"@ + list[i] + "' is missing"@,
                    ..v
                }
            };
            lemma_found_have_times(s, list, i + 1, oldest, next);
        } else if let Ok(t) = freshness::time(s.world, list[i], seq![]) {
            lemma_found_have_times(
                s,
                list,
                i + 1,
                oldest,
                staleness::judged(s, v, list[i], t, "discovered input "@, oldest),
            );
        } else {
            assert(!has_time(s.world, list[i]));
        }
    }
}

proof fn lemma_ordered_have_times(w: World, list: Seq<Seq<char>>, i: int)
    requires
        0 <= i <= list.len(),
    ensures
        staleness::untimed(w, list, i) is None <==> forall|j: int|
            i <= j < list.len() ==> has_time(w, #[trigger] list[j]),
    decreases list.len() - i,
{
    if i < list.len() {
        if has_time(w, list[i]) {
            lemma_ordered_have_times(w, list, i + 1);
        }
    }
}

/// An edge can be looked at exactly where nothing is wrong with what it found, and all its
/// declared inputs, order-only ones too, and those found ones that are known have times.
pub proof fn law_edge_can_be_looked_at_where_inputs_have_times(
    m: ManifestView,
    s: Situation,
    k: usize,
)
    ensures
        ({
            let e = m.edges[k as int];
            staleness::evaluated(m, s, k) is Ok <==> {
                &&& s.errors[k as int] is None
                &&& forall|path: Seq<char>| #[trigger]
                    is_made_from(e, path) ==> has_time(s.world, path)
                &&& forall|path: Seq<char>| #[trigger]
                    e.order_only_inputs.contains(path) ==> has_time(s.world, path)
                &&& forall|path: Seq<char>| #[trigger]
                    s.discovered[k as int].contains(path) && is_known(s, path) ==> has_time(
                        s.world,
                        path,
                    )
            }
        }),
{
    let e = m.edges[k as int];
    let list = freshness::sources(e);
    let found = s.discovered[k as int];
    let ordered = e.order_only_inputs;
    let start = staleness::oldest_of(s.world.times, manifest::outputs_of(e), 0, u128::MAX);
    let v = match start {
        Ok(_) => Verdict { dirty: false, reason: seq![], newest: 0 },
        Err(output) => Verdict {
            dirty: true,
            reason: "output "@ + output + " doesn't exist"@,
            newest: 0,
        },
    };
    let oldest = staleness::compared(m, s, e);
    lemma_lists(e);
    lemma_sources_have_times(s, list, 0, oldest, v);
    let judged = staleness::judged_sources(s, list, 0, oldest, v);
    if let Ok(declared) = judged {
        lemma_found_have_times(s, found, 0, oldest, declared);
        lemma_ordered_have_times(s.world, ordered, 0);
        assert forall|path: Seq<char>| #[trigger] is_made_from(e, path) implies has_time(
            s.world,
            path,
        ) by {
            assert(list.contains(path));
            assert(list[list.index_of(path)] == path);
        }
        if staleness::judged_found(s, found, 0, oldest, declared) is Ok {
            assert forall|path: Seq<char>| #[trigger] found.contains(path) && is_known(
                s,
                path,
            ) implies has_time(s.world, path) by {
                assert(found[found.index_of(path)] == path);
            }
            if staleness::untimed(s.world, ordered, 0) is None {
                assert forall|path: Seq<char>| #[trigger] ordered.contains(path) implies has_time(
                    s.world,
                    path,
                ) by {
                    assert(ordered[ordered.index_of(path)] == path);
                }
            } else {
                let j = choose|j: int|
                    0 <= j < ordered.len() && !has_time(s.world, #[trigger] ordered[j]);
                assert(ordered.contains(ordered[j]));
            }
        } else {
            let j = choose|j: int|
                0 <= j < found.len() && is_known(s, found[j]) && !has_time(
                    s.world,
                    #[trigger] found[j],
                );
            assert(found.contains(found[j]));
        }
    } else {
        let j = choose|j: int| 0 <= j < list.len() && !has_time(s.world, #[trigger] list[j]);
        assert(list.contains(list[j]));
        assert(is_made_from(e, list[j]));
    }
}

/// Whether `few` are among `many`, and no more.
spec fn are_fewer(few: Seq<usize>, many: Seq<usize>) -> bool {
    &&& few.len() <= many.len()
    &&& forall|k: usize| #[trigger] few.contains(k) ==> many.contains(k)
}

proof fn lemma_time_stays(w: World, path: Seq<char>, few: Seq<usize>, many: Seq<usize>)
    requires
        are_fewer(few, many),
        freshness::time(w, path, many) is Ok,
    ensures
        freshness::time(w, path, few) == freshness::time(w, path, many),
    decreases w.edges.len() - many.len(), 0int,
{
    if !w.times.contains_key(path) && w.outputs.contains_key(path) {
        let k = w.outputs[path];
        let e = w.edges[k as int];
        if !freshness::is_bare(e) {
            assert forall|x: usize| #[trigger] few.push(k).contains(x) implies many.push(
                k,
            ).contains(x) by {
                let i = few.push(k).index_of(x);
                if i < few.len() {
                    assert(few[i] == x);
                    assert(few.contains(x));
                    assert(many.push(k)[many.index_of(x)] == x);
                } else {
                    assert(many.push(k)[many.len() as int] == x);
                }
            }
            lemma_newest_stays(w, k, 0, few.push(k), many.push(k), 0);
        }
    }
}

proof fn lemma_newest_stays(
    w: World,
    k: usize,
    j: int,
    few: Seq<usize>,
    many: Seq<usize>,
    newest: u128,
)
    requires
        are_fewer(few, many),
        freshness::newest_time(w, k, j, many, newest) is Ok,
    ensures
        freshness::newest_time(w, k, j, few, newest) == freshness::newest_time(
            w,
            k,
            j,
            many,
            newest,
        ),
    decreases
            w.edges.len() - many.len(),
            freshness::sources(w.edges[k as int]).len() - j + 1,
{
    let list = freshness::sources(w.edges[k as int]);
    if 0 <= j < list.len() {
        lemma_time_stays(w, list[j], few, many);
        let t = freshness::time(w, list[j], many)->Ok_0;
        lemma_newest_stays(w, k, j + 1, few, many, freshness::later(newest, t));
    }
}

proof fn lemma_newest_is_latest(w: World, k: usize, j: int, open: Seq<usize>, newest: u128)
    requires
        0 <= j <= freshness::sources(w.edges[k as int]).len(),
        freshness::newest_time(w, k, j, open, newest) is Ok,
    ensures
        ({
            let list = freshness::sources(w.edges[k as int]);
            let t = freshness::newest_time(w, k, j, open, newest)->Ok_0;
            &&& newest <= t
            &&& forall|i: int|
                j <= i < list.len() ==> has_time(w, #[trigger] list[i]) && time(w, list[i]) <= t
            &&& t == newest || exists|i: int|
                j <= i < list.len() && time(w, #[trigger] list[i]) == t
        }),
    decreases freshness::sources(w.edges[k as int]).len() - j,
{
    let list = freshness::sources(w.edges[k as int]);
    if j < list.len() {
        let u = freshness::time(w, list[j], open)->Ok_0;
        assert(are_fewer(seq![], open));
        lemma_time_stays(w, list[j], seq![], open);
        lemma_newest_is_latest(w, k, j + 1, open, freshness::later(newest, u));
        let t = freshness::newest_time(w, k, j, open, newest)->Ok_0;
        if t != newest && t == u {
            assert(time(w, list[j]) == t);
        }
    }
}

/// A file has its own time. A path that is neither a file nor an output has none, nor has the
/// output of a command that is no file. A phony output that is no file is newer than everything
/// where its edge has no inputs and no validations; else its time is the latest of the times of
/// the explicit and implicit inputs of its edge, which all have one.
pub proof fn law_times_of_paths(w: World, path: Seq<char>)
    requires
        freshness::is_world(w),
    ensures
        w.times.contains_key(path) ==> freshness::time(w, path, seq![]) == Ok::<u128, Seq<char>>(
            w.times[path],
        ),
        !w.times.contains_key(path) && !w.outputs.contains_key(path) ==> !has_time(w, path),
        !w.times.contains_key(path) && w.outputs.contains_key(path) ==> {
            let e = w.edges[w.outputs[path] as int];
            &&& e.rule != "phony"@ ==> !has_time(w, path)
            &&& e.rule == "phony"@ && e.explicit_inputs.len() == 0 && e.implicit_inputs.len() == 0
                && e.order_only_inputs.len() == 0 && e.validations.len() == 0 ==> has_time(w, path)
                && time(w, path) == u128::MAX
            &&& e.rule == "phony"@ && (e.explicit_inputs.len() > 0 || e.implicit_inputs.len() > 0
                || e.order_only_inputs.len() > 0 || e.validations.len() > 0) && has_time(w, path)
                ==> {
                &&& forall|input: Seq<char>| #[trigger]
                    is_made_from(e, input) ==> has_time(w, input) && time(w, input) <= time(w, path)
                &&& time(w, path) == 0 || exists|input: Seq<char>|
                    is_made_from(e, input) && #[trigger] time(w, input) == time(w, path)
            }
        },
{
    if !w.times.contains_key(path) && w.outputs.contains_key(path) {
        let k = w.outputs[path];
        let e = w.edges[k as int];
        let list = freshness::sources(e);
        lemma_lists(e);
        assert(manifest::inputs_of(e).len() == e.explicit_inputs.len() + e.implicit_inputs.len()
            + e.order_only_inputs.len());
        if e.rule == "phony"@ && !freshness::is_bare(e) && has_time(w, path) {
            let open = Seq::<usize>::empty().push(k);
            lemma_newest_is_latest(w, k, 0, open, 0);
            assert forall|input: Seq<char>| #[trigger] is_made_from(e, input) implies has_time(
                w,
                input,
            ) && time(w, input) <= time(w, path) by {
                assert(list.contains(input));
                assert(list[list.index_of(input)] == input);
            }
            if time(w, path) != 0 {
                let i = choose|i: int|
                    0 <= i < list.len() && time(w, #[trigger] list[i]) == time(w, path);
                assert(list.contains(list[i]));
                assert(is_made_from(e, list[i]));
            }
        }
    }
}

} // verus!
