use knight_build::closure::dependency_closure;
use knight_build::closure::edge_label;
use knight_build::closure::output_map;
use knight_build::closure::tolerates_phony_self_reference;
use knight_build::closure::Graph;
use knight_build::deps_log::DepsLog;
use knight_build::dyndep_files::existing_dyndep_files;
use knight_build::dyndep_files::files_to_load;
use knight_build::dyndep_plan::dyndep_prebuild_targets;
use knight_build::dyndep_plan::held_edges;
use knight_build::dyndep_plan::pending_dyndep_files;
use knight_build::parse_manifest;
use knight_build::pools::limited_pool;
use knight_build::pools::pool_limit;
use knight_build::pools::release_pool_edge;
use knight_build::pools::reserve_new_pool_edges;
use knight_build::schedule::critical_path_weights;
use knight_build::targets::resolve_target_path;
use knight_build::targets::select_targets;
use knight_build::targets::target_paths;
use knight_build::Edge;
use knight_build::Manifest;
use rapidhash::RapidHashMap;
use rapidhash::RapidHashSet;

fn nothing_found(manifest: &Manifest) -> Vec<Vec<String>> {
    vec![Vec::new(); manifest.edges.len()]
}

fn closure_of(manifest: &Manifest, target: &str, strict: bool) -> Result<Vec<usize>, String> {
    let outputs = output_map(manifest);
    let targets = [outputs[target]];
    dependency_closure(
        manifest,
        &targets,
        &outputs,
        &nothing_found(manifest),
        strict,
    )
}

#[test]
fn zero_depth_pool_is_unlimited() {
    let manifest = parse_manifest("pool p\n  depth = 0\n", "build.ninja").unwrap();
    assert_eq!(pool_limit(&manifest, Some("p"), 12), usize::MAX);
}

#[test]
fn pools_have_their_depth_and_the_console_has_one_place() {
    let manifest = parse_manifest("pool p\n  depth = 3\n", "build.ninja").unwrap();
    assert_eq!(pool_limit(&manifest, Some("p"), 12), 3);
    assert_eq!(pool_limit(&manifest, Some("console"), 12), 1);
    assert_eq!(pool_limit(&manifest, Some("other"), 12), 12);
    assert_eq!(pool_limit(&manifest, None, 12), 12);
}

#[test]
fn places_of_a_pool_are_held_and_given_up() {
    let manifest = parse_manifest(
        "pool p\n  depth = 1\nrule r\n  command = c\n  pool = p\nbuild a: r\nbuild b: r\nbuild c: phony\n",
        "build.ninja",
    )
    .unwrap();
    assert_eq!(
        limited_pool(&manifest, &manifest.edges[0], false),
        Some(("p".to_owned(), 1))
    );
    assert_eq!(limited_pool(&manifest, &manifest.edges[2], false), None);
    let mut reserved = vec![false; 3];
    let mut usage = RapidHashMap::default();
    let dirty = vec![true; 3];
    reserve_new_pool_edges(&manifest, false, &[0, 1, 2], &mut reserved, &mut usage, &dirty);
    assert_eq!(reserved, [true, false, false]);
    assert_eq!(usage["p"], 1);
    release_pool_edge(&manifest, false, 0, &mut reserved, &mut usage);
    assert_eq!(usage["p"], 0);
    reserve_new_pool_edges(&manifest, false, &[1], &mut reserved, &mut usage, &dirty);
    assert_eq!(reserved, [false, true, false]);
    release_pool_edge(&manifest, false, 0, &mut reserved, &mut usage);
    assert_eq!(usage["p"], 1);
}

#[test]
fn resolves_deep_dependency_chains_without_using_the_call_stack() {
    let count = 50_000;
    let mut manifest = Manifest::new("");
    manifest.edges.reserve(count);
    for index in 0..count {
        let mut edge = Edge {
            explicit_outputs: vec![format!("out/{index}")],
            ..Edge::default()
        };
        if index != 0 {
            edge.explicit_inputs.push(format!("out/{}", index - 1));
        }
        manifest.edges.push(edge);
    }
    let outputs = output_map(&manifest);
    let discovered = vec![Vec::new(); count];
    let closure =
        dependency_closure(&manifest, &[count - 1], &outputs, &discovered, false).unwrap();
    assert_eq!(closure.len(), count);
    assert_eq!(closure[0], 0);
    assert_eq!(closure[count - 1], count - 1);
}

#[test]
fn collects_transitive_validations_without_creating_false_cycles() {
    let manifest = parse_manifest(
        "build base: phony\nbuild check: phony base\nbuild middle: phony base |@ check\nbuild goal: phony middle\ndefault goal\n",
        "build.ninja",
    )
    .unwrap();
    let outputs = output_map(&manifest);
    let closure = closure_of(&manifest, "goal", false).unwrap();
    assert!(closure.contains(&outputs["check"]));
    assert_eq!(closure.len(), 4);
}

#[test]
fn detects_cycles() {
    let manifest = parse_manifest(
        "build a: phony b\nbuild b: phony a\ndefault a\n",
        "build.ninja",
    )
    .unwrap();
    let error = closure_of(&manifest, "a", false).unwrap_err();
    assert!(error.contains("cycle"));
    assert_eq!(error, "dependency cycle: a -> b -> a");
}

#[test]
fn phony_self_cycle_warning_mode_ignores_the_self_input() {
    let manifest = parse_manifest("build all: phony all\ndefault all\n", "build.ninja").unwrap();
    assert_eq!(closure_of(&manifest, "all", false), Ok(vec![0]));
    assert!(closure_of(&manifest, "all", true)
        .unwrap_err()
        .contains("cycle"));
    assert!(tolerates_phony_self_reference(&manifest.edges[0], false));
    assert!(!tolerates_phony_self_reference(&manifest.edges[0], true));
}

#[test]
fn multi_output_phonies_keep_their_self_cycles() {
    let manifest = parse_manifest("build a b: phony a\n", "build.ninja").unwrap();
    assert_eq!(edge_label(&manifest.edges[0]), "a b");
    assert!(closure_of(&manifest, "a", false).is_err());
}

#[test]
fn found_inputs_come_before_their_edge() {
    let manifest = parse_manifest(
        "rule r\n  command = c\nbuild app: r main.c\nbuild gen.h: r\n",
        "build.ninja",
    )
    .unwrap();
    let outputs = output_map(&manifest);
    let found = vec![vec!["gen.h".to_owned()], Vec::new()];
    assert_eq!(
        dependency_closure(&manifest, &[0], &outputs, &found, false),
        Ok(vec![1, 0])
    );
}

#[test]
fn edges_with_the_longest_way_before_them_weigh_most() {
    let manifest = parse_manifest(
        "rule r\n  command = c\nbuild a: r\nbuild b: r a\nbuild c: r b\nbuild d: r\nbuild all: phony c d\n",
        "build.ninja",
    )
    .unwrap();
    let outputs = output_map(&manifest);
    let found = nothing_found(&manifest);
    let closure = dependency_closure(&manifest, &[4], &outputs, &found, false).unwrap();
    assert_eq!(closure, [0, 1, 2, 3, 4]);
    assert_eq!(
        critical_path_weights(&manifest, &closure, &outputs, &found),
        [3, 2, 1, 1, 0]
    );
    assert_eq!(
        critical_path_weights(&manifest, &[3], &outputs, &found),
        [0, 0, 0, 1, 0]
    );
}

#[test]
fn names_of_targets_stand_for_paths() {
    let manifest = parse_manifest(
        "builddir = out\nrule r\n  command = c\nbuild out/app: r main.c | util.h\nbuild lib: r lib.c\n",
        "build.ninja",
    )
    .unwrap();
    let resolve = |name: &str, builddir: bool| {
        resolve_target_path(&manifest, name, None, builddir, false)
    };
    assert_eq!(resolve("./lib", true), Ok("lib".to_owned()));
    assert_eq!(resolve("app", true), Ok("out/app".to_owned()));
    assert_eq!(
        resolve("app", false),
        Err("unknown target 'app', did you mean 'lib'?".to_owned())
    );
    assert_eq!(resolve("util.h^", true), Ok("out/app".to_owned()));
    assert_eq!(
        resolve("lib^", true),
        Err("'lib' has no out edge".to_owned())
    );
    assert_eq!(resolve("", true), Err("empty path".to_owned()));
}

#[test]
fn dependents_are_found_in_the_dependency_log() {
    let manifest = parse_manifest(
        "rule r\n  command = c\nbuild app: r main.c\nbuild x.h: phony\n",
        "build.ninja",
    )
    .unwrap();
    let mut log = DepsLog::new();
    let mut bytes = Vec::new();
    log.record("app", 1, &vec!["x.h".to_owned()], &mut bytes)
        .unwrap();
    assert_eq!(
        resolve_target_path(&manifest, "x.h^", Some(&log), true, false),
        Ok("app".to_owned())
    );
}

#[test]
fn targets_are_those_asked_for_or_the_defaults_or_the_roots() {
    let source = "rule r\n  command = c\nbuild app: r lib main.c\nbuild lib: r lib.c\nbuild doc: r\n";
    let log = DepsLog::new();
    let manifest = parse_manifest(source, "build.ninja").unwrap();
    let outputs = output_map(&manifest);
    let none: Vec<String> = Vec::new();
    assert_eq!(
        target_paths(&manifest, &none, &outputs, &log, false),
        Ok(vec!["app".to_owned(), "doc".to_owned()])
    );
    assert_eq!(
        select_targets(&manifest, &none, &outputs, &log, false, |_| false),
        Ok(vec![0, 2])
    );
    let asked = vec!["doc".to_owned(), "lib".to_owned(), "doc".to_owned()];
    assert_eq!(
        select_targets(&manifest, &asked, &outputs, &log, false, |_| false),
        Ok(vec![1, 2])
    );
    let file = vec!["main.c".to_owned()];
    assert_eq!(
        select_targets(&manifest, &file, &outputs, &log, false, |path| path == "main.c"),
        Ok(Vec::new())
    );
    assert_eq!(
        select_targets(&manifest, &file, &outputs, &log, false, |_| false),
        Err("'main.c' missing and no known rule to make it".to_owned())
    );
    let with_default = parse_manifest(&format!("{source}default lib\n"), "build.ninja").unwrap();
    assert_eq!(
        select_targets(&with_default, &none, &outputs, &log, false, |_| false),
        Ok(vec![1])
    );
    let circle = parse_manifest("build a: phony b\nbuild b: phony a\n", "build.ninja").unwrap();
    assert_eq!(
        select_targets(&circle, &none, &output_map(&circle), &log, false, |_| false),
        Err("could not determine root nodes of build graph".to_owned())
    );
}

#[test]
fn dyndep_prebuild_includes_safe_work_but_holds_consumers() {
    let manifest = parse_manifest(
        "rule run\n  command = run\nbuild independent: run\nbuild dd: run\nbuild consumer: run independent || dd\n  dyndep = dd\ndefault independent consumer\n",
        "build.ninja",
    )
    .unwrap();
    let outputs = output_map(&manifest);
    let discovered = nothing_found(&manifest);
    let log = DepsLog::new();
    let targets =
        select_targets(&manifest, &Vec::new(), &outputs, &log, false, |_| false).unwrap();
    let closure = dependency_closure(&manifest, &targets, &outputs, &discovered, false).unwrap();
    let files = pending_dyndep_files(&manifest, &closure, &RapidHashSet::default()).unwrap();
    let graph = Graph {
        manifest: &manifest,
        outputs: &outputs,
        discovered: &discovered,
        phony_cycle_error: false,
    };
    assert_eq!(
        dyndep_prebuild_targets(&graph, &closure, &files, |_| false),
        ["dd", "independent"]
    );
    assert_eq!(held_edges(&graph, &closure, &files), [false, false, true]);
}

#[test]
fn loaded_dyndep_files_are_not_pending() {
    let manifest = parse_manifest(
        "rule run\n  command = run\nbuild a: run || dd\n  dyndep = dd\nbuild b: run || dd\n  dyndep = dd\n",
        "build.ninja",
    )
    .unwrap();
    let mut seen = RapidHashSet::default();
    assert_eq!(
        pending_dyndep_files(&manifest, &[0, 1], &seen),
        Ok(vec!["dd".to_owned()])
    );
    seen.insert("dd".to_owned());
    assert_eq!(pending_dyndep_files(&manifest, &[0, 1], &seen), Ok(Vec::new()));
}

#[test]
fn work_waits_for_dyndep_files_along_every_way() {
    let manifest = parse_manifest(
        "rule run\n  command = run\nbuild dd: run\nbuild a: run || dd\n  dyndep = dd\nbuild b: run a\nbuild c: run src |@ b\nbuild d: run src\nbuild all: phony b c d\n",
        "build.ninja",
    )
    .unwrap();
    let outputs = output_map(&manifest);
    let discovered = nothing_found(&manifest);
    let closure = dependency_closure(&manifest, &[5], &outputs, &discovered, false).unwrap();
    let graph = Graph {
        manifest: &manifest,
        outputs: &outputs,
        discovered: &discovered,
        phony_cycle_error: false,
    };
    let files = vec!["dd".to_owned()];
    assert_eq!(
        held_edges(&graph, &closure, &files),
        [false, true, true, true, false, true]
    );
    assert_eq!(
        dyndep_prebuild_targets(&graph, &closure, &files, |path| path == "src"),
        ["dd", "d"]
    );
    assert_eq!(
        dyndep_prebuild_targets(&graph, &closure, &files, |_| false),
        ["dd"]
    );
    assert!(
        dyndep_prebuild_targets(&graph, &closure, &vec!["src".to_owned()], |_| true).is_empty()
    );
}

#[test]
fn dyndep_files_are_loaded_once_they_are_made() {
    let manifest = parse_manifest(
        "rule r\n  command = r\nbuild dd other: r\nbuild a: r || dd\n  dyndep = dd\nbuild b: r || ee\n  dyndep = ee\n",
        "build.ninja",
    )
    .unwrap();
    let mut seen = RapidHashSet::default();
    let pending = vec!["ee".to_owned(), "dd".to_owned()];
    assert_eq!(
        files_to_load(&manifest, &[0, 1], &pending, &mut seen),
        ["dd", "ee"]
    );
    assert!(seen.contains("dd") && seen.contains("ee") && !seen.contains("other"));
    assert!(files_to_load(&manifest, &[0], &pending, &mut seen).is_empty());
    assert_eq!(existing_dyndep_files(&manifest, |_| true), ["dd", "ee"]);
    assert_eq!(
        existing_dyndep_files(&manifest, |path: &str| path == "ee"),
        ["ee"]
    );
}
