//! Writing a build log anew: the last record of each output that is still made or
//! still there, in the order of the outputs.
use crate::asking;
use crate::asking::ask;
use crate::build_log;
use crate::build_log::log_header;
use crate::build_log::read_numbers;
use crate::build_log::split_fields;
use crate::collections::map_entries;
use crate::collections::map_get;
use crate::collections::map_insert;
use crate::collections::map_new;
use crate::deps_log;
use crate::manifest::Manifest;
use crate::manifest::ManifestView;
use crate::paths;
use crate::paths::join_file;
use crate::sorting;
use crate::sorting::insert_sorted;
use crate::text;
use crate::text::chars_of;
use crate::text::push_all;
use crate::text::split_lines;
use crate::text::string_of;
use rapidhash::RapidHashMap;
use vstd::prelude::*;
use vstd::string::*;

verus! {

/// Whether a line is a record of five fields.
pub open spec fn is_record(line: Seq<char>) -> bool {
    build_log::fields(line).len() == 5 && build_log::numbers_of(build_log::fields(line)) is Some
}

/// The last record of each output among the first `n` lines, by its number. The
/// first line is the header.
pub open spec fn latest(lines: Seq<Seq<char>>, n: int) -> Map<Seq<char>, usize>
    decreases n,
{
    if n <= 1 {
        Map::empty()
    } else if is_record(lines[n - 1]) {
        latest(lines, n - 1).insert(build_log::fields(lines[n - 1])[3], (n - 1) as usize)
    } else {
        latest(lines, n - 1)
    }
}

fn find_latest(lines: &Vec<Vec<char>>) -> (r: RapidHashMap<String, usize>)
    ensures
        r.deep_view() == latest(text::texts(lines@), lines@.len() as int),
        forall|output: Seq<char>| #[trigger]
            r.deep_view().contains_key(output) ==> r.deep_view()[output] < lines@.len(),
{
    let ghost all = text::texts(lines@);
    let mut r: RapidHashMap<String, usize> = map_new();
    let mut i: usize = 1;
    while i < lines.len()
        invariant
            1 <= i,
            i <= lines@.len() || i == 1,
            all == text::texts(lines@),
            r.deep_view() == latest(all, i as int),
            forall|output: Seq<char>| #[trigger]
                r.deep_view().contains_key(output) ==> r.deep_view()[output] < lines@.len(),
        decreases lines@.len() - i,
    {
        proof {
            assert(all[i as int] == lines@[i as int]@);
        }
        let f: Vec<Vec<char>> = split_fields(lines[i].as_slice());
        if f.len() == 5 && read_numbers(&f).is_some() {
            proof {
                assert(text::texts(f@)[3] == f@[3]@);
            }
            map_insert(&mut r, string_of(f[3].as_slice()), i);
        }
        i += 1;
    }
    r
}

/// The lines of the first `n` outputs of `keys`.
pub open spec fn rewritten(
    lines: Seq<Seq<char>>,
    last: Map<Seq<char>, usize>,
    keys: Seq<Seq<char>>,
    n: int,
) -> Seq<char>
    decreases n,
{
    if n <= 0 {
        "# ninja log v7\n"@
    } else {
        rewritten(lines, last, keys, n - 1) + lines[last[keys[n - 1]] as int].push('\n')
    }
}

/// Whether a log keeps an output: it has a record, and is still made or there.
pub open spec fn is_kept(
    last: Map<Seq<char>, usize>,
    live: Map<Seq<char>, usize>,
    there: spec_fn(Seq<char>) -> bool,
    output: Seq<char>,
) -> bool {
    last.contains_key(output) && (live.contains_key(output) || there(output))
}

/// Whether `r` is the log `contents` written anew.
pub open spec fn is_compacted(
    r: Seq<char>,
    contents: Seq<char>,
    live: Map<Seq<char>, usize>,
    there: spec_fn(Seq<char>) -> bool,
) -> bool {
    let lines = text::text_lines(contents, 0);
    let last = latest(lines, lines.len() as int);
    exists|keys: Seq<Seq<char>>|
        {
            &&& sorting::is_sorted(keys)
            &&& forall|output: Seq<char>| #[trigger]
                keys.contains(output) <==> is_kept(last, live, there, output)
            &&& r == #[trigger] rewritten(lines, last, keys, keys.len() as int)
        }
}

/// The log `contents` written anew. `is_there` tells which files there are; it is asked for
/// each file at most once, and its answers settle the result.
pub fn recompact_build_log<F: Fn(&str) -> bool>(
    contents: &str,
    live_outputs: &RapidHashMap<String, usize>,
    is_there: F,
) -> (r: String)
    requires
        forall|path: &str| #[trigger] is_there.requires((path,)),
    ensures
        forall|there: spec_fn(Seq<char>) -> bool| #[trigger]
            deps_log::tells(is_there, there) ==> is_compacted(
                r@,
                contents@,
                live_outputs.deep_view(),
                there,
            ),
        exists|answers: Map<Seq<char>, bool>|
            {
                &&& #[trigger] asking::are_answers(is_there, answers)
                &&& forall|there: spec_fn(Seq<char>) -> bool| #[trigger]
                    asking::agrees(there, answers) ==> is_compacted(
                        r@,
                        contents@,
                        live_outputs.deep_view(),
                        there,
                    )
            },
{
    let mut answers: RapidHashMap<String, bool> = map_new();
    let lines: Vec<Vec<char>> = split_lines(chars_of(contents).as_slice());
    let ghost all = text::text_lines(contents@, 0);
    let last: RapidHashMap<String, usize> = find_latest(&lines);
    let ghost live = live_outputs.deep_view();
    let entries: Vec<(&String, &usize)> = map_entries(&last);
    let mut keys: Vec<String> = Vec::new();
    let mut i: usize = 0;
    proof {
        assert(text::strings(keys@) =~= seq![]);
    }
    while i < entries.len()
        invariant
            i <= entries@.len(),
            live == live_outputs.deep_view(),
            asking::are_answers(is_there, answers.deep_view()),
            forall|path: &str| #[trigger] is_there.requires((path,)),
            forall|a: int, b: int|
                0 <= a < b < entries@.len() ==> (#[trigger] entries@[a]).0@ != (
                #[trigger] entries@[b]).0@,
            forall|a: int|
                0 <= a < entries@.len() ==> last.deep_view().contains_key(
                    (#[trigger] entries@[a]).0@,
                ),
            sorting::is_sorted(text::strings(keys@)),
            forall|output: Seq<char>| #[trigger]
                text::strings(keys@).contains(output) ==> exists|k: int|
                    0 <= k < i && (#[trigger] entries@[k]).0@ == output,
            forall|there: spec_fn(Seq<char>) -> bool, k: int|
                #![trigger asking::agrees(there, answers.deep_view()), entries@[k]]
                asking::agrees(there, answers.deep_view()) && 0 <= k < i ==> (text::strings(keys@).contains(
                    entries@[k].0@,
                ) <==> live.contains_key(entries@[k].0@) || there(entries@[k].0@)),
        decreases entries@.len() - i,
    {
        let key: &String = entries[i].0;
        let ghost before = text::strings(keys@);
        proof {
            assert(entries@[i as int].0@ == key@);
            if before.contains(key@) {
                let k = choose|k: int| 0 <= k < i && (#[trigger] entries@[k]).0@ == key@;
                assert(entries@[k].0@ != entries@[i as int].0@);
            }
        }
        let ghost known = answers.deep_view();
        let keep: bool = map_get(live_outputs, key.as_str()).is_some() || ask(
            &is_there,
            &mut answers,
            key.as_str(),
        );
        if keep {
            insert_sorted(&mut keys, key);
        }
        proof {
            let after = text::strings(keys@);
            assert forall|output: Seq<char>| #[trigger] after.contains(output) implies exists|k: int|
                0 <= k < i + 1 && (#[trigger] entries@[k]).0@ == output by {
                if before.contains(output) {
                    let k = choose|k: int| 0 <= k < i && (#[trigger] entries@[k]).0@ == output;
                    assert(entries@[k].0@ == output);
                } else {
                    assert(entries@[i as int].0@ == output);
                }
            }
            assert forall|there: spec_fn(Seq<char>) -> bool, k: int|
                #![trigger asking::agrees(there, answers.deep_view()), entries@[k]]
                asking::agrees(there, answers.deep_view()) && 0 <= k < i + 1 implies (after.contains(
                entries@[k].0@,
            ) <==> live.contains_key(entries@[k].0@) || there(entries@[k].0@)) by {
                assert(asking::agrees(there, known));
                if k < i {
                    assert(before.contains(entries@[k].0@) <==> live.contains_key(entries@[k].0@)
                        || there(entries@[k].0@));
                    assert(entries@[k].0@ != entries@[i as int].0@);
                }
            }
        }
        i += 1;
    }
    let ghost sorted = text::strings(keys@);
    let mut out: Vec<char> = chars_of(log_header().as_str());
    let mut n: usize = 0;
    while n < keys.len()
        invariant
            n <= keys@.len(),
            sorted == text::strings(keys@),
            all == text::texts(lines@),
            last.deep_view() == latest(all, all.len() as int),
            forall|output: Seq<char>| #[trigger]
                last.deep_view().contains_key(output) ==> last.deep_view()[output] < lines@.len(),
            forall|output: Seq<char>| #[trigger]
                sorted.contains(output) ==> last.deep_view().contains_key(output),
            out@ == rewritten(all, last.deep_view(), sorted, n as int),
        decreases keys@.len() - n,
    {
        proof {
            assert(sorted[n as int] == keys@[n as int]@);
            assert(sorted.contains(sorted[n as int]));
        }
        let ghost before = out@;
        if let Some(found) = map_get(&last, keys[n].as_str()) {
            let k: usize = *found;
            proof {
                assert(all[k as int] == lines@[k as int]@);
            }
            push_all(&mut out, lines[k].as_slice());
            out.push('\n');
            proof {
                assert(out@ =~= before + all[k as int].push('\n'));
            }
        }
        n += 1;
    }
    let r: String = string_of(out.as_slice());
    proof {
        let found = last.deep_view();
        assert forall|there: spec_fn(Seq<char>) -> bool| #[trigger]
            asking::agrees(there, answers.deep_view()) implies is_compacted(
            r@,
            contents@,
            live,
            there,
        ) by {
            assert forall|output: Seq<char>| #[trigger] sorted.contains(output) <==> is_kept(
                found,
                live,
                there,
                output,
            ) by {
                if found.contains_key(output) {
                    let k = choose|k: int|
                        0 <= k < entries@.len() && (#[trigger] entries@[k]).0@ == output;
                    assert(entries@[k].0@ == output);
                }
                if sorted.contains(output) {
                    let k = choose|k: int|
                        0 <= k < entries@.len() && (#[trigger] entries@[k]).0@ == output;
                    assert(entries@[k].0@ == output);
                }
            }
            assert(r@ == rewritten(all, found, sorted, sorted.len() as int));
        }
        assert forall|there: spec_fn(Seq<char>) -> bool| #[trigger]
            deps_log::tells(is_there, there) implies is_compacted(r@, contents@, live, there) by {
            asking::lemma_telling_agrees(is_there, answers.deep_view(), there);
        }
    }
    r
}

/// The path of the build log of a manifest.
pub open spec fn log_path_of(m: ManifestView, windows: bool) -> Seq<char> {
    if m.variables.contains_key("builddir"@) {
        paths::file_in(m.variables["builddir"@], ".ninja_log"@, windows)
    } else {
        ".ninja_log"@
    }
}

/// The path of the build log of a manifest.
pub fn build_log_path(manifest: &Manifest) -> (r: String)
    ensures
        r@ == log_path_of(manifest.deep_view(), false),
{
    build_log_path_on(manifest, false)
}

/// The path of the build log of a manifest on a system.
pub fn build_log_path_on(manifest: &Manifest, windows: bool) -> (r: String)
    ensures
        r@ == log_path_of(manifest.deep_view(), windows),
{
    match map_get(&manifest.variables, "builddir") {
        Some(dir) => join_file(dir.as_str(), ".ninja_log", windows),
        None => ".ninja_log".to_owned(),
    }
}

} // verus!
