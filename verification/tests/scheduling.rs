use knight_build::board::Limits;
use knight_build::board::Offer;
use knight_build::board::Step;
use knight_build::build_log::BuildLog;
use knight_build::closure::dependency_closure;
use knight_build::closure::output_map;
use knight_build::closure::Graph;
use knight_build::completion::is_spoiled;
use knight_build::completion::Run;
use knight_build::declared_dirt::Declarations;
use knight_build::deps_log::DepsLog;
use knight_build::dirty_plan::planned_commands;
use knight_build::discovery::notes_of;
use knight_build::discovery::read_depfile;
use knight_build::discovery::read_depfile_inputs;
use knight_build::discovery::read_log;
use knight_build::discovery::report_of;
use knight_build::discovery::Notes;
use knight_build::discovery::Report;
use knight_build::freshness::Files;
use knight_build::parse_manifest;
use knight_build::queue::Queue;
use knight_build::schedule::critical_path_weights;
use knight_build::scheduler::Scheduler;
use knight_build::staleness::log_command;
use knight_build::staleness::EvaluatedEdge;
use knight_build::staleness::Evaluation;
use knight_build::Manifest;
use rapidhash::RapidHashMap;
use rapidhash::RapidHashSet;

/// A manifest, what is on disk, and what is known of earlier builds.
struct Scene {
    manifest: Manifest,
    outputs: RapidHashMap<String, usize>,
    times: RapidHashMap<String, u128>,
    log: BuildLog,
    discovered: Vec<Vec<String>>,
    missing: Vec<bool>,
    errors: Vec<Option<String>>,
    ran: Vec<bool>,
    cleaned: RapidHashSet<String>,
}

impl Scene {
    fn new(source: &str, files: &[(&str, u128)]) -> Scene {
        let manifest = parse_manifest(source, "build.ninja").unwrap();
        let n = manifest.edges.len();
        let mut times = RapidHashMap::default();
        for (path, time) in files {
            times.insert((*path).to_owned(), *time);
        }
        Scene {
            outputs: output_map(&manifest),
            manifest,
            times,
            log: BuildLog::new(),
            discovered: vec![Vec::new(); n],
            missing: vec![false; n],
            errors: vec![None; n],
            ran: vec![false; n],
            cleaned: RapidHashSet::default(),
        }
    }

    /// As if edge `k` had run at a time.
    fn record(&mut self, k: usize, time: u128) {
        let edge = &self.manifest.edges[k];
        let command = log_command(&self.manifest, edge, false);
        let mut lines = Vec::new();
        self.log.record(edge, &command, 0, 5, time, &mut lines);
    }

    fn files(&self) -> Files<'_> {
        Files {
            manifest: &self.manifest,
            outputs: &self.outputs,
            times: &self.times,
        }
    }

    fn evaluation(&self) -> Evaluation<'_> {
        Evaluation {
            files: self.files(),
            log: &self.log,
            discovered: &self.discovered,
            missing: &self.missing,
            errors: &self.errors,
            ran: &self.ran,
            cleaned: &self.cleaned,
            windows: false,
        }
    }

    fn evaluate(&self, k: usize) -> Result<EvaluatedEdge, String> {
        self.evaluation().evaluate_edge(k)
    }

    fn reason(&self, k: usize) -> Option<String> {
        let edge = self.evaluate(k).unwrap();
        edge.dirty.then_some(edge.reason)
    }

    fn closure(&self, target: &str) -> Vec<usize> {
        dependency_closure(
            &self.manifest,
            &[self.outputs[target]],
            &self.outputs,
            &self.discovered,
            false,
        )
        .unwrap()
    }
}

const COPY: &str = "rule cp\n  command = cp $in $out\n";

#[test]
fn phony_outputs_are_as_new_as_their_inputs() {
    let scene = Scene::new(
        "build all: phony a b\nbuild never: phony\nbuild round: phony turn\nbuild turn: phony round\nrule r\n  command = r\nbuild made: r\n",
        &[("a", 3), ("b", 7)],
    );
    let files = scene.files();
    assert_eq!(files.virtual_mtime("a"), Ok(3));
    assert_eq!(files.virtual_mtime("all"), Ok(7));
    assert_eq!(files.virtual_mtime("never"), Ok(u128::MAX));
    assert_eq!(
        files.virtual_mtime("nowhere"),
        Err("input 'nowhere' is missing".to_owned())
    );
    assert_eq!(
        files.virtual_mtime("made"),
        Err("output 'made' was not created by its command".to_owned())
    );
    assert_eq!(
        files.virtual_mtime("round"),
        Err("phony cycle involving 'round'".to_owned())
    );
}

#[test]
fn edges_run_where_an_output_is_missing_or_older() {
    let source = &format!("{COPY}build out: cp in\n");
    let mut scene = Scene::new(source, &[("in", 5)]);
    let edge = scene.evaluate(0).unwrap();
    assert!(edge.dirty);
    assert_eq!(edge.reason, "output out doesn't exist");
    assert_eq!(edge.command, "cp in out");
    assert_eq!(edge.log_command, "cp in out");
    assert_eq!(edge.newest_input, 5);
    assert!(edge.pool.is_none() && edge.rspfile.is_none() && edge.rspfile_content.is_none());

    scene.times.insert("out".to_owned(), 4);
    scene.record(0, 5);
    assert_eq!(
        scene.reason(0).as_deref(),
        Some("input in is newer than the oldest output")
    );
    scene.times.insert("out".to_owned(), 5);
    let edge = scene.evaluate(0).unwrap();
    assert!(!edge.dirty);
    assert_eq!(edge.command, "");
    assert_eq!(edge.newest_input, 5);
}

#[test]
fn edges_run_where_the_log_says_so() {
    let source = &format!("{COPY}build out: cp in\n");
    let mut scene = Scene::new(source, &[("in", 5), ("out", 9)]);
    assert_eq!(scene.reason(0).as_deref(), Some("command line changed"));
    scene.record(0, 4);
    assert_eq!(
        scene.reason(0).as_deref(),
        Some("recorded mtime of 'out' is older than an input")
    );
    scene.record(0, 5);
    assert_eq!(scene.reason(0), None);
    scene.missing[0] = true;
    assert_eq!(
        scene.reason(0).as_deref(),
        Some("dependency information is missing")
    );
}

#[test]
fn recorded_edges_are_clean() {
    let mut scene = Scene::new(
        &format!("{COPY}build mid: cp in\nbuild out: cp mid\n"),
        &[("in", 1), ("mid", 2), ("out", 3)],
    );
    scene.record(0, 2);
    scene.record(1, 3);
    assert_eq!(scene.reason(0), None);
    assert_eq!(scene.reason(1), None);
    assert_eq!(
        scene.evaluation().initially_dirty_edges(&[0, 1], false),
        [false, false]
    );
}

#[test]
fn what_was_made_anew_makes_edges_run() {
    let mut scene = Scene::new(
        &format!("{COPY}build mid: cp in\nbuild out: cp mid\n"),
        &[("in", 1), ("mid", 2), ("out", 3)],
    );
    scene.record(0, 2);
    scene.record(1, 3);
    scene.ran[0] = true;
    assert_eq!(scene.reason(1).as_deref(), Some("mid is dirty"));
    scene.cleaned.insert("mid".to_owned());
    assert_eq!(scene.reason(1), None);
}

#[test]
fn found_inputs_count() {
    let mut scene = Scene::new(
        &format!("{COPY}build out: cp in\n"),
        &[("in", 1), ("out", 3), ("header", 4)],
    );
    scene.record(0, 9);
    scene.discovered[0] = vec!["header".to_owned()];
    assert_eq!(
        scene.reason(0).as_deref(),
        Some("discovered input header is newer than the oldest output")
    );
    scene.discovered[0] = vec!["gone".to_owned()];
    assert_eq!(
        scene.reason(0).as_deref(),
        Some("discovered input 'gone' is missing")
    );
    scene.errors[0] = Some("out.d: broken".to_owned());
    assert_eq!(scene.evaluate(0).err().as_deref(), Some("out.d: broken"));
}

#[test]
fn edges_that_leave_outputs_alone_go_by_the_log() {
    let mut scene = Scene::new(
        "rule r\n  command = r\n  restat = 1\nbuild out: r in\n",
        &[("in", 5), ("out", 1)],
    );
    assert_eq!(
        scene.reason(0).as_deref(),
        Some("input in is newer than the oldest output")
    );
    scene.record(0, 5);
    assert_eq!(scene.reason(0), None);
    scene.times.insert("in".to_owned(), 6);
    assert_eq!(
        scene.reason(0).as_deref(),
        Some("recorded mtime of 'out' is older than an input")
    );
}

#[test]
fn generators_may_change_their_command() {
    let scene = Scene::new(
        "rule r\n  command = r\n  generator = 1\nbuild out: r\n",
        &[("out", 1)],
    );
    assert_eq!(scene.reason(0), None);
}

#[test]
fn empty_commands_are_commands() {
    let scene = Scene::new("rule r\n  command = $none\nbuild out: r\n", &[]);
    let edge = scene.evaluate(0).unwrap();
    assert!(edge.dirty);
    assert_eq!(edge.command, "");
}

#[test]
fn edges_without_an_input_cannot_be_looked_at() {
    let scene = Scene::new(&format!("{COPY}build out: cp in\n"), &[("out", 1)]);
    assert_eq!(
        scene.evaluate(0).err().as_deref(),
        Some("input 'in' is missing")
    );
    let scene = Scene::new(&format!("{COPY}build out: cp || in\n"), &[("out", 1)]);
    assert_eq!(
        scene.evaluate(0).err().as_deref(),
        Some("input 'in' is missing")
    );
}

#[test]
fn response_files_belong_to_the_command() {
    let scene = Scene::new(
        "rule link\n  command = link @$rspfile\n  rspfile = $out.rsp\n  rspfile_content = $in\n  description = LINK $out\n  pool = console\nbuild app: link a b\n",
        &[("a", 1), ("b", 1)],
    );
    let edge = scene.evaluate(0).unwrap();
    assert_eq!(edge.log_command, "link @app.rsp;rspfile=a b");
    assert_eq!(edge.rspfile.as_deref(), Some("app.rsp"));
    assert_eq!(edge.rspfile_content.as_deref(), Some("a b"));
    assert_eq!(edge.description, "LINK app");
    assert_eq!(edge.pool.as_deref(), Some("console"));
}

#[test]
fn dirt_is_passed_on() {
    let mut scene = Scene::new(
        &format!(
            "{COPY}build mid: cp in\nbuild alias: phony mid\nbuild out: cp alias\nbuild other: cp in\n"
        ),
        &[("in", 1), ("out", 3), ("other", 3)],
    );
    scene.record(2, 3);
    scene.record(3, 3);
    let closure = [0, 1, 2, 3];
    assert_eq!(
        scene.evaluation().initially_dirty_edges(&closure, true),
        [true, true, true, false]
    );
    assert_eq!(
        scene.evaluation().initially_dirty_edges(&closure, false),
        [true, false, true, false]
    );
    let plan = scene.evaluation().initially_dirty_edges(&closure, true);
    assert_eq!(planned_commands(&scene.manifest, &closure, &plan, &[]), 2);
    assert_eq!(planned_commands(&scene.manifest, &closure, &plan, &[2]), 1);
    assert_eq!(planned_commands(&scene.manifest, &[1, 3], &plan, &[]), 0);
}

#[test]
fn missing_sources_are_reported() {
    let scene = Scene::new(&format!("{COPY}build out: cp in\n"), &[]);
    assert_eq!(
        scene.evaluation().missing_source_error(&[0]).as_deref(),
        Some("'in', needed by 'out', missing and no known rule to make it")
    );
    let scene = Scene::new(&format!("{COPY}build out: cp || in\n"), &[]);
    assert_eq!(
        scene.evaluation().missing_source_error(&[0]).as_deref(),
        Some("'in', needed by 'out', missing and no known rule to make it")
    );
    let source = &format!("{COPY}build mid: cp src\nbuild all: phony mid || in\n");
    let mut scene = Scene::new(source, &[("src", 1), ("mid", 2)]);
    assert_eq!(
        scene.evaluation().missing_source_error(&[0, 1]).as_deref(),
        Some("'in', needed by 'all', missing and no known rule to make it")
    );
    scene.record(0, 2);
    assert_eq!(scene.evaluation().missing_source_error(&[0, 1]), None);
    assert_eq!(scene.evaluation().absent_input_error(1), None);
    scene.times.remove("src");
    assert_eq!(
        scene.evaluation().absent_input_error(0).as_deref(),
        Some("input 'src' is missing")
    );
}

#[test]
fn declared_dirt_leaves_found_inputs_out() {
    let source = "rule cc\n  command = cc $in\n  depfile = $out.d\nrule gen\n  command = gen\nbuild h: gen spec\nbuild o: cc c h\nbuild p: cc c\n";
    let mut scene = Scene::new(source, &[("spec", 1), ("h", 2), ("c", 1), ("o", 3), ("p", 3)]);
    scene.record(0, 2);
    scene.record(1, 3);
    scene.record(2, 3);
    let dirt = |scene: &Scene| {
        Declarations {
            files: scene.files(),
            log: &scene.log,
            windows: false,
        }
        .declared_dirty_edges()
    };
    assert_eq!(dirt(&scene), [false, false, false]);
    scene.times.insert("spec".to_owned(), 9);
    assert_eq!(dirt(&scene), [true, true, false]);
    scene.times.remove("c");
    assert_eq!(dirt(&scene), [true, true, true]);
}

#[test]
fn accepts_older_outputs_and_first_output_records_from_deps_log() {
    let mut log = DepsLog::new();
    let mut bytes = Vec::new();
    log.record("out1", 11, &["header.h".to_owned()].to_vec(), &mut bytes)
        .unwrap();
    let scene = Scene::new(
        "rule cc\n  command = cc\n  deps = gcc\n  depfile = deps.d\nbuild out1 out2: cc source.c\n",
        &[("out1", 10), ("out2", 10)],
    );
    let edge = &scene.manifest.edges[0];
    assert!(matches!(notes_of(&scene.manifest, edge, false), Notes::Log));
    let found = read_log(edge, &log, &scene.times, true, false);
    assert_eq!(found.inputs, ["header.h"]);
    assert!(!found.missing);

    let found = read_log(edge, &log, &scene.times, false, false);
    assert!(found.inputs.is_empty() && !found.missing);
    let mut newer = RapidHashMap::default();
    newer.insert("out1".to_owned(), 12u128);
    assert!(read_log(edge, &log, &newer, true, false).missing);
    assert!(read_log(edge, &log, &RapidHashMap::default(), true, false).missing);
    assert!(read_log(edge, &DepsLog::new(), &scene.times, true, false).missing);
}

#[test]
fn depfiles_tell_the_inputs_of_their_edge() {
    let scene = Scene::new(
        "rule cc\n  command = cc\n  depfile = $out.d\nbuild o: cc c\nbuild p: phony\n",
        &[],
    );
    let edge = &scene.manifest.edges[0];
    match notes_of(&scene.manifest, edge, false) {
        Notes::Depfile(path) => assert_eq!(path, "o.d"),
        _ => panic!("the edge has a depfile"),
    }
    assert!(matches!(
        notes_of(&scene.manifest, &scene.manifest.edges[1], false),
        Notes::Nowhere
    ));
    let found = read_depfile(edge, "o.d", "./o: x/../c h\n", false);
    assert_eq!(found.inputs, ["c", "h"]);
    assert!(!found.missing && found.error.is_none());
    assert!(read_depfile(edge, "o.d", "", false).missing);
    assert!(read_depfile(edge, "o.d", "q: c\n", false).missing);
    assert_eq!(
        read_depfile(edge, "o.d", "o q: c\n", false).error.as_deref(),
        Some("o.d: depfile mentions 'q' as an output, but no such output was declared")
    );
    assert_eq!(
        read_depfile(edge, "o.d", "o c\n", false).error.as_deref(),
        Some("o.d: expected ':' in depfile")
    );
    assert_eq!(
        read_depfile_inputs("o.d", "o: ./c\n", false),
        Ok(vec!["c".to_owned()])
    );
    assert_eq!(read_depfile_inputs("o.d", "", false), Ok(Vec::new()));
    assert_eq!(
        read_depfile_inputs("o.d", "o c\n", false),
        Err("parsing depfile 'o.d': expected ':' in depfile".to_owned())
    );
}

#[test]
fn edges_report_what_they_found_in_their_way() {
    let report = |bindings: &str| {
        let manifest = parse_manifest(
            &format!("rule r\n  command = r\n{bindings}build o: r\n"),
            "build.ninja",
        )
        .unwrap();
        report_of(&manifest, &manifest.edges[0], false)
    };
    assert!(matches!(report(""), Ok(Report::Nothing)));
    match report("  deps = gcc\n  depfile = d\n") {
        Ok(Report::Gcc(path)) => assert_eq!(path, "d"),
        _ => panic!("the report is a depfile"),
    }
    assert_eq!(
        report("  deps = gcc\n").err().as_deref(),
        Some("edge with deps=gcc but no depfile makes no sense")
    );
    match report("  deps = msvc\n") {
        Ok(Report::Msvc(prefix)) => assert_eq!(prefix, "Note: including file: "),
        _ => panic!("the report is printed"),
    }
    match report("  deps = msvc\n  msvc_deps_prefix = READS\n") {
        Ok(Report::Msvc(prefix)) => assert_eq!(prefix, "READS"),
        _ => panic!("the report is printed"),
    }
    assert_eq!(
        report("  deps = odd\n").err().as_deref(),
        Some("unknown deps type 'odd'")
    );
}

#[test]
fn the_log_gets_the_start_or_the_newest_output() {
    let mut run = Run {
        restat: false,
        generator: false,
        start: 50,
        before: vec![None, Some(3)],
        after: vec![Some(70), Some(60)],
        logged: vec![None, Some(2)],
    };
    assert_eq!(run.record_mtime(), 50);
    run.generator = true;
    assert_eq!(run.record_mtime(), 70);
    run.generator = false;
    run.restat = true;
    assert_eq!(run.record_mtime(), 70);
    assert!(!run.is_left_alone(1));
    run.after[1] = Some(3);
    assert!(run.is_left_alone(1));
    assert_eq!(run.record_mtime(), 50);
    run.start = 0;
    run.restat = false;
    assert_eq!(run.record_mtime(), 70);
    run.after = vec![None, None];
    assert_eq!(run.record_mtime(), 0);
}

#[test]
fn outputs_that_were_not_made_are_newer_than_everything() {
    let mut run = Run {
        restat: false,
        generator: false,
        start: 50,
        before: vec![None, None, Some(4)],
        after: vec![None, Some(8), None],
        logged: vec![Some(6), None, None],
    };
    assert_eq!(run.time_of_output(0), u128::MAX);
    assert_eq!(run.time_of_output(1), 8);
    run.restat = true;
    assert_eq!(run.time_of_output(0), 6);
    assert_eq!(run.time_of_output(2), u128::MAX);
    run.logged[0] = None;
    assert_eq!(run.time_of_output(0), 0);
}

#[test]
fn queues_give_the_heaviest_edge_first() {
    let weights = [1, 5, 5, 3, 9];
    let mut queue = Queue::new();
    for k in [3, 2, 0, 4, 1] {
        queue.push(&weights, k);
    }
    assert_eq!(queue.len(), 5);
    let mut order = Vec::new();
    while let Some(k) = queue.pop(&weights) {
        order.push(k);
    }
    assert_eq!(order, [4, 1, 2, 3, 0]);
    assert_eq!(queue.pop(&weights), None);
}

#[test]
fn edges_are_told_by_place_and_then_by_number() {
    let scene = Scene::new(
        "rule r\n  command = r\nbuild a b: r\nbuild w: r b\nbuild x: r a\nbuild y: r b a\nbuild all: phony w x y\n",
        &[],
    );
    let graph = Graph {
        manifest: &scene.manifest,
        outputs: &scene.outputs,
        discovered: &scene.discovered,
        phony_cycle_error: false,
    };
    let links = graph.link_edges(&scene.closure("all"));
    assert_eq!(links.dependents[0], [2, 3, 1]);
    assert_eq!(links.dependents[1], [4]);
    assert_eq!(links.pending, [0, 1, 1, 1, 3]);
}

/// How a build went: what was started and what ended, in order.
struct Trace {
    events: Vec<String>,
    most: usize,
    last: Step,
}

/// Runs all edges as if they had to, ending the command that was started first.
fn run(
    scene: &Scene,
    target: &str,
    limits: Limits,
    plan_first: bool,
    fails: &[usize],
    clean: &[usize],
) -> Trace {
    let closure = scene.closure(target);
    let graph = Graph {
        manifest: &scene.manifest,
        outputs: &scene.outputs,
        discovered: &scene.discovered,
        phony_cycle_error: false,
    };
    let weights = critical_path_weights(
        &scene.manifest,
        &closure,
        &scene.outputs,
        &scene.discovered,
    );
    let plan: Vec<bool> = (0..scene.manifest.edges.len())
        .map(|k| scene.manifest.edges[k].rule != "phony" && !clean.contains(&k))
        .collect();
    let mut scheduler = Scheduler::new(&graph, &closure, weights, limits, false);
    if plan_first || scheduler.has_limited_pools() {
        scheduler.adopt_plan(plan.clone());
    }
    let mut events = Vec::new();
    let mut commands = Vec::new();
    let mut most = 0;
    loop {
        match scheduler.step() {
            Step::Again => {}
            Step::Examine(k) => {
                if scene.manifest.edges[k].rule == "phony" || clean.contains(&k) {
                    events.push(format!("={k}"));
                    scheduler.found_clean(k);
                    continue;
                }
                if !scheduler.has_plan() {
                    scheduler.adopt_plan(plan.clone());
                }
                if matches!(scheduler.found_dirty(k), Offer::Start) {
                    scheduler.started(k);
                    commands.push(k);
                    most = most.max(scheduler.running());
                    events.push(format!("+{k}"));
                }
            }
            Step::Wait => {
                let k = commands.remove(0);
                events.push(format!("-{k}"));
                scheduler.ended(k, !fails.contains(&k));
            }
            last => return Trace { events, most, last },
        }
    }
}

fn limits(jobs: usize) -> Limits {
    Limits {
        jobs: Some(jobs),
        failures_allowed: 1,
        dry_run: false,
    }
}

#[test]
fn edges_run_behind_what_they_wait_for() {
    let scene = Scene::new(
        "rule r\n  command = r\nbuild a: r\nbuild b: r a\nbuild c: r a\nbuild d: r b c\nbuild e: r\nbuild all: phony d e\n",
        &[],
    );
    let trace = run(&scene, "all", limits(2), false, &[], &[]);
    assert_eq!(trace.last, Step::Done);
    assert_eq!(
        trace.events,
        ["+0", "+4", "-0", "+1", "-4", "+2", "-1", "-2", "+3", "-3"]
    );
    assert_eq!(trace.most, 2);
}

#[test]
fn no_more_commands_run_than_may() {
    let mut source = "rule r\n  command = r\n".to_owned();
    for i in 0..9 {
        source.push_str(&format!("build o{i}: r\n"));
    }
    source.push_str("build all: phony o0 o1 o2 o3 o4 o5 o6 o7 o8\n");
    let scene = Scene::new(&source, &[]);
    for jobs in [0, 1, 3, 20] {
        let trace = run(&scene, "all", limits(jobs), false, &[], &[]);
        assert_eq!(trace.last, Step::Done);
        assert_eq!(trace.most, jobs.clamp(1, 9));
        assert_eq!(trace.events.iter().filter(|e| e.starts_with('+')).count(), 9);
    }
}

#[test]
fn edges_of_a_pool_keep_within_its_depth() {
    let scene = Scene::new(
        "pool two\n  depth = 2\nrule r\n  command = r\n  pool = two\nrule q\n  command = q\nbuild a: r\nbuild b: r\nbuild c: r\nbuild d: r\nbuild e: q\nbuild all: phony a b c d e\n",
        &[],
    );
    let trace = run(&scene, "all", limits(8), true, &[], &[]);
    assert_eq!(trace.last, Step::Done);
    assert_eq!(
        trace.events,
        ["+0", "+1", "+4", "-0", "+2", "-1", "+3", "-4", "-2", "-3"]
    );
}

#[test]
fn what_waits_for_a_failed_edge_is_not_looked_at() {
    let scene = Scene::new(
        "rule r\n  command = r\nbuild a: r\nbuild b: r a\nbuild c: r\nbuild all: phony b c\n",
        &[],
    );
    let mut all = limits(1);
    all.failures_allowed = 0;
    let trace = run(&scene, "all", all, false, &[0], &[]);
    assert_eq!(trace.last, Step::Done);
    assert_eq!(trace.events, ["+0", "-0", "+2", "-2"]);

    let trace = run(&scene, "all", limits(1), false, &[0], &[]);
    assert_eq!(trace.last, Step::Done);
    assert_eq!(trace.events, ["+0", "-0"]);
}

#[test]
fn clean_edges_let_others_go_on() {
    let scene = Scene::new(
        "rule r\n  command = r\nbuild a: r\nbuild b: phony a\nbuild c: r b\nbuild all: phony c\n",
        &[],
    );
    let trace = run(&scene, "all", limits(1), true, &[], &[0, 2]);
    assert_eq!(trace.last, Step::Done);
    assert_eq!(trace.events, ["=0", "=2"]);
    let trace = run(&scene, "all", limits(1), false, &[], &[0, 2]);
    assert_eq!(trace.events, ["=0", "=1", "=2", "=3"]);
}

#[test]
fn dry_runs_start_everything_that_is_ready() {
    let scene = Scene::new(
        "rule r\n  command = r\nbuild a: r\nbuild b: r\nbuild c: r a b\n",
        &[],
    );
    let dry = Limits {
        jobs: None,
        failures_allowed: 1,
        dry_run: true,
    };
    let trace = run(&scene, "c", dry, false, &[], &[]);
    assert_eq!(trace.last, Step::Done);
    assert_eq!(trace.events, ["+0", "+1", "-0", "-1", "+2", "-2"]);
}

#[test]
fn edges_that_cannot_be_started_are_put_back() {
    let scene = Scene::new("rule r\n  command = r\nbuild a: r\n", &[]);
    let graph = Graph {
        manifest: &scene.manifest,
        outputs: &scene.outputs,
        discovered: &scene.discovered,
        phony_cycle_error: false,
    };
    let mut scheduler = Scheduler::new(&graph, &[0], vec![1], limits(1), false);
    scheduler.adopt_plan(vec![true]);
    assert_eq!(scheduler.step(), Step::Again);
    assert_eq!(scheduler.step(), Step::Examine(0));
    assert_eq!(scheduler.found_dirty(0), Offer::Start);
    scheduler.put_back(0);
    assert_eq!(scheduler.step(), Step::Stuck);
}

#[test]
fn phonies_behind_the_last_command_wait_too() {
    let scene = Scene::new(
        "rule r\n  command = r\nbuild a: r\nbuild p: phony\nbuild b: r p\nbuild all: phony a b p\n",
        &[],
    );
    let graph = Graph {
        manifest: &scene.manifest,
        outputs: &scene.outputs,
        discovered: &scene.discovered,
        phony_cycle_error: false,
    };
    let start = |jobs: usize| {
        let weights = vec![3, 1, 2, 0];
        let closure = scene.closure("all");
        let mut scheduler = Scheduler::new(&graph, &closure, weights, limits(jobs), false);
        assert_eq!(scheduler.step(), Step::Again);
        assert_eq!(scheduler.step(), Step::Examine(0));
        scheduler.adopt_plan(vec![true, false, true, false]);
        assert_eq!(scheduler.found_dirty(0), Offer::Start);
        scheduler.started(0);
        scheduler.step()
    };
    assert_eq!(start(1), Step::Wait);
    assert_eq!(start(2), Step::Examine(1));
}

#[test]
fn interrupted_outputs_are_removed_where_they_changed() {
    assert!(!is_spoiled(false, Some(1), Some(1)));
    assert!(!is_spoiled(false, None, None));
    assert!(is_spoiled(false, Some(1), Some(2)));
    assert!(is_spoiled(false, None, Some(2)));
    assert!(is_spoiled(false, Some(1), None));
    assert!(is_spoiled(true, Some(1), Some(1)));
}
