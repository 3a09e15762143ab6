use knight_build::build_log::build_log_version;
use knight_build::build_log::hash_command;
use knight_build::build_log::log_header;
use knight_build::build_log::BuildLog;
use knight_build::build_log::BuildLogEntry;
use knight_build::build_log::LogRepair;
use knight_build::build_log_compaction::build_log_path;
use knight_build::build_log_compaction::build_log_path_on;
use knight_build::build_log_compaction::recompact_build_log;
use knight_build::closure::output_map;
use knight_build::parse_manifest;
use rapidhash::RapidHashMap;

#[test]
fn command_hash_matches_ninja_v7_log() {
    let command = "cmd /c echo hello>out.txt";
    assert_eq!(hash_command(command), 0x29ceb1f38b6e5e65);
}

#[test]
fn build_log_recompacts_redundant_entries_automatically() {
    let mut contents = String::from("# ninja log v7\n");
    for index in 0..101 {
        contents.push_str(&format!("{index}\t{index}\t42\tout\t1\n"));
    }
    let manifest = parse_manifest("build out: phony\n", "build.ninja").unwrap();
    let outputs = output_map(&manifest);
    let (log, repair) = BuildLog::load(&contents, &outputs);
    assert_eq!(log.entry("out").unwrap().mtime, 42);
    assert_eq!(
        repair,
        LogRepair::Keep {
            length: None,
            compact: true
        }
    );
    let compacted = recompact_build_log(&contents, &outputs, |_| false);
    assert_eq!(compacted.lines().count(), 2);
    assert!(compacted.contains("100\t100\t42\tout\t1"));
}

#[test]
fn incompatible_build_log_is_discarded() {
    let manifest = parse_manifest("build out: phony\n", "build.ninja").unwrap();
    let outputs = output_map(&manifest);
    let (log, repair) = BuildLog::load("# ninja log v6\n0\t0\t0\tout\t1\n", &outputs);
    assert!(!log.has_entry("out"));
    assert_eq!(repair, LogRepair::Discard { too_new: false });
    let (_, repair) = BuildLog::load("# ninja log v8\n", &outputs);
    assert_eq!(repair, LogRepair::Discard { too_new: true });
}

#[test]
fn truncated_build_log_tail_is_removed_before_append() {
    let contents = "# ninja log v7\n0\t1\t2\tout\t1\n3\t4\t5\ttruncated";
    let manifest = parse_manifest("build out: phony\n", "build.ninja").unwrap();
    let outputs = output_map(&manifest);
    let (log, repair) = BuildLog::load(contents, &outputs);
    assert_eq!(log.entry("out").unwrap().mtime, 2);
    let length = match repair {
        LogRepair::Keep {
            length: Some(length),
            compact: false,
        } => length,
        other => panic!("{other:?}"),
    };
    assert_eq!(&contents[..length], "# ninja log v7\n0\t1\t2\tout\t1\n");
}

#[test]
fn build_log_recompaction_keeps_existing_or_live_outputs() {
    let existing = "generator-output";
    let missing = "deleted-output";
    let contents = format!(
        "# ninja log v7\n0\t0\t1\tlive\t1\n0\t0\t1\t{existing}\t1\n0\t0\t1\t{missing}\t1\n"
    );
    let mut live = RapidHashMap::default();
    live.insert("live".to_owned(), 0usize);
    let compacted = recompact_build_log(&contents, &live, |path| path == existing);
    assert!(compacted.contains("\tlive\t"));
    assert!(compacted.contains(&format!("\t{existing}\t")));
    assert!(!compacted.contains(&format!("\t{missing}\t")));
    assert_eq!(
        compacted,
        "# ninja log v7\n0\t0\t1\tgenerator-output\t1\n0\t0\t1\tlive\t1\n"
    );
}

#[test]
fn versions_of_build_logs_are_numbers() {
    assert_eq!(build_log_version("# ninja log v7\n"), 7);
    assert_eq!(build_log_version("# ninja log v +12x"), 12);
    assert_eq!(build_log_version("# ninja log v-3\n"), -3);
    assert_eq!(build_log_version("# ninja log v99999999999999999999"), i32::MAX);
    assert_eq!(build_log_version("# ninja log v-99999999999999999999"), i32::MIN);
    assert_eq!(build_log_version("# ninja log v\n"), 0);
    assert_eq!(build_log_version("something else"), 0);
}

#[test]
fn recorded_commands_are_read_back() {
    let manifest = parse_manifest(
        "rule r\n  command = c\nbuild a b: r\nbuild other: r\n",
        "build.ninja",
    )
    .unwrap();
    let outputs = output_map(&manifest);
    let edge = &manifest.edges[0];
    let mut log = BuildLog::new();
    let mut lines = Vec::new();
    assert!(log.command_changed(edge, "c", false));
    assert!(!log.command_changed(edge, "c", true));
    log.record(edge, "c", 5, 17, u128::MAX, &mut lines);
    let text = log_header() + &lines.into_iter().collect::<String>();
    let (read, repair) = BuildLog::load(&text, &outputs);
    assert_eq!(
        repair,
        LogRepair::Keep {
            length: None,
            compact: false
        }
    );
    let entry = BuildLogEntry {
        command_hash: hash_command("c"),
        mtime: u64::MAX,
        elapsed_ms: 12,
    };
    assert_eq!(read.entry("a"), Some(entry));
    assert_eq!(read.entry("b"), Some(entry));
    assert_eq!(read.entry("other"), None);
    assert!(!read.command_changed(edge, "c", false));
    assert!(read.command_changed(edge, "d", false));
    assert_eq!(read.previous_elapsed(edge), Some(12));
    assert_eq!(read.previous_elapsed(&manifest.edges[1]), None);
    assert_eq!(read.recorded_mtime("b"), Some(u64::MAX));
}

#[test]
fn older_outputs_are_found() {
    let manifest = parse_manifest("build a b: phony\n", "build.ninja").unwrap();
    let outputs = output_map(&manifest);
    let text = "# ninja log v7\n1\t2\t30\ta\t1f\n1\t2\t20\tb\tFF\n1\tx\t20\tb\t1\n";
    let (log, _) = BuildLog::load(text, &outputs);
    let edge = &manifest.edges[0];
    assert_eq!(log.recorded_mtime_dirty(edge, 20), None);
    assert_eq!(log.recorded_mtime_dirty(edge, 21), Some("b".to_owned()));
    assert_eq!(log.recorded_mtime_dirty(edge, 31), Some("a".to_owned()));
    assert_eq!(log.entry("b").unwrap().command_hash, 255);
    assert!(log.hash_changed(edge, 31, false));
}

#[test]
fn build_logs_stand_in_the_build_directory() {
    let plain = parse_manifest("", "build.ninja").unwrap();
    assert_eq!(build_log_path(&plain), ".ninja_log");
    let inside = parse_manifest("builddir = out\n", "build.ninja").unwrap();
    assert_eq!(build_log_path(&inside), "out/.ninja_log");
    assert_eq!(build_log_path_on(&inside, true), "out\\.ninja_log");
    assert_eq!(build_log_path_on(&plain, true), ".ninja_log");
}

#[test]
fn compacted_logs_hold_the_same() {
    let contents = "# ninja log v7\n\
        0\t9\t1\tout\t1\r\n\
        0\t9\t1\tother\t7\n\
        no record\n\
        2\t9\t3\tout\tab\n\
        0\t0\t1\tgone\t1\n\
        0\t1\t5\tlong\t5\tmore\n";
    let mut live = RapidHashMap::default();
    for (k, output) in ["out", "other", "long", "new"].iter().enumerate() {
        live.insert((*output).to_owned(), k);
    }
    let compacted = recompact_build_log(contents, &live, |_| false);
    assert_eq!(
        compacted,
        "# ninja log v7\n0\t9\t1\tother\t7\n2\t9\t3\tout\tab\n"
    );
    let (before, _) = BuildLog::load(contents, &live);
    let (after, repair) = BuildLog::load(&compacted, &live);
    assert_eq!(
        repair,
        LogRepair::Keep {
            length: None,
            compact: false
        }
    );
    for output in ["out", "other", "new"] {
        assert_eq!(before.entry(output), after.entry(output));
    }
    assert_eq!(after.entry("out").unwrap().command_hash, 0xab);
    assert!(before.has_entry("long") && !after.has_entry("long"));
}
