use knight_build::deps_log::deps_log_path;
use knight_build::deps_log::deps_log_path_on;
use knight_build::deps_log::log_header;
use knight_build::deps_log::DepsEntry;
use knight_build::deps_log::DepsLog;
use knight_build::deps_log::RecordTooLarge;
use knight_build::deps_log::Repair;

/// A log file in memory, with the log that is read from it.
struct Disk {
    file: Vec<u8>,
    log: DepsLog,
}

fn strings(list: &[&str]) -> Vec<String> {
    list.iter().map(|item| item.to_string()).collect()
}

impl Disk {
    fn new() -> Disk {
        Disk {
            file: log_header(),
            log: DepsLog::new(),
        }
    }

    fn open(file: Vec<u8>) -> (Disk, Repair) {
        let (log, repair) = DepsLog::load(&file);
        let mut disk = Disk { file, log };
        match repair {
            Repair::Keep => {}
            Repair::Compact => disk.recompact(),
            Repair::Truncate(length) => disk.file.truncate(length),
            Repair::Remove => disk.file = log_header(),
        }
        (disk, repair)
    }

    fn record(&mut self, output: &str, mtime: u64, inputs: &[&str]) {
        self.log
            .record(output, mtime, &strings(inputs), &mut self.file)
            .unwrap();
    }

    fn recompact(&mut self) {
        self.file = self.log.recompact().unwrap();
    }
}

fn write_sample_log() -> Vec<u8> {
    let mut disk = Disk::new();
    disk.record("out.o", 1, &["foo.h", "bar.h"]);
    disk.record("out2.o", 2, &["foo.h", "bar2.h"]);
    disk.file
}

#[test]
fn round_trips_and_recompacts() {
    let mut disk = Disk::new();
    disk.record("out.o", 42, &["a.h", "b.h"]);
    disk.record("out.o", 43, &["a.h"]);
    let before = disk.file.len();

    let (mut loaded, repair) = Disk::open(disk.file);
    assert_eq!(repair, Repair::Keep);
    assert_eq!(
        loaded.log.get("out.o"),
        Some(&DepsEntry {
            mtime: 43,
            inputs: vec!["a.h".to_owned()]
        })
    );
    loaded.recompact();
    assert!(loaded.file.len() < before);
    let (reloaded, _) = Disk::open(loaded.file);
    assert_eq!(reloaded.log.get("out.o").unwrap().mtime, 43);
}

#[test]
fn preserves_output_node_order_through_recompaction() {
    let mut disk = Disk::new();
    disk.record("z.o", 1, &["z.h"]);
    disk.record("a.o", 2, &["a.h"]);
    assert_eq!(disk.log.outputs_in_node_order(), ["z.o", "a.o"]);
    disk.recompact();
    assert_eq!(disk.log.outputs_in_node_order(), ["z.o", "a.o"]);
}

#[test]
fn recompacts_redundant_records_automatically() {
    let mut disk = Disk::new();
    for mtime in 0..=1_000 {
        disk.record("out.o", mtime, &["input.h"]);
    }
    let before = disk.file.len();
    let (loaded, repair) = Disk::open(disk.file);
    assert_eq!(repair, Repair::Compact);
    assert_eq!(loaded.log.get("out.o").unwrap().mtime, 1_000);
    assert!(loaded.file.len() < before);
}

#[test]
fn malformed_log_is_discarded_before_new_records() {
    let (mut disk, repair) = Disk::open(b"not a deps log".to_vec());
    assert_eq!(repair, Repair::Remove);
    disk.record("out.o", 9, &["input.h"]);
    let (loaded, _) = Disk::open(disk.file);
    assert_eq!(loaded.log.get("out.o").unwrap().mtime, 9);
}

#[test]
fn recovers_a_truncated_tail_before_appending() {
    let mut disk = Disk::new();
    disk.record("out.o", 1, &["first.h"]);
    disk.record("out2.o", 2, &["second.h"]);
    let mut file = disk.file;
    file.truncate(file.len() - 2);

    let (mut recovered, _) = Disk::open(file);
    assert_eq!(recovered.log.get("out.o").unwrap().mtime, 1);
    assert!(recovered.log.get("out2.o").is_none());
    recovered.record("out2.o", 3, &["second.h"]);
    let (loaded, repair) = Disk::open(recovered.file);
    assert_eq!(repair, Repair::Keep);
    assert_eq!(loaded.log.get("out2.o").unwrap().mtime, 3);
}

#[test]
fn upstream_write_read_and_reverse_dependency_cases() {
    let (disk, _) = Disk::open(write_sample_log());
    let log = disk.log;
    assert_eq!(log.outputs_in_node_order(), ["out.o", "out2.o"]);
    assert_eq!(
        log.get("out.o"),
        Some(&DepsEntry {
            mtime: 1,
            inputs: vec!["foo.h".to_owned(), "bar.h".to_owned()],
        })
    );
    assert_eq!(
        log.get("out2.o"),
        Some(&DepsEntry {
            mtime: 2,
            inputs: vec!["foo.h".to_owned(), "bar2.h".to_owned()],
        })
    );
    assert_eq!(log.first_reverse_dep("foo.h"), Some("out.o"));
    assert_eq!(log.first_reverse_dep("bar.h"), Some("out.o"));
    assert_eq!(log.first_reverse_dep("bar2.h"), Some("out2.o"));
    assert_eq!(log.first_reverse_dep("baz.h"), None);
    assert_eq!(log.entries().len(), 2);
}

#[test]
fn upstream_large_and_duplicate_dependency_entry_cases() {
    let inputs = (0..100_000)
        .map(|index| format!("file{index}.h"))
        .collect::<Vec<_>>();
    let mut file = log_header();
    let mut log = DepsLog::new();
    log.record("out.o", 1, &inputs, &mut file).unwrap();
    assert_eq!(log.get("out.o").unwrap().inputs.len(), 100_000);

    let (mut loaded, _) = Disk::open(file);
    assert_eq!(loaded.log.get("out.o").unwrap().inputs.len(), 100_000);
    let before = loaded.file.len();
    loaded
        .log
        .record("out.o", 1, &inputs, &mut loaded.file)
        .unwrap();
    assert_eq!(loaded.file.len(), before);
}

#[test]
fn upstream_invalid_header_corpus() {
    for contents in [
        &b""[..],
        &b"# ninjad"[..],
        &b"# ninjadeps\n"[..],
        &b"# ninjadeps\n\x01\x02"[..],
        &b"# ninjadeps\n\x01\x02\x03\x04"[..],
    ] {
        let (disk, repair) = Disk::open(contents.to_vec());
        assert!(disk.log.was_invalidated(), "contents={contents:?}");
        assert_eq!(repair, Repair::Remove, "contents={contents:?}");
    }
}

#[test]
fn upstream_truncation_corpus_recovers_monotonically() {
    let original = write_sample_log();
    let mut prior_nodes = usize::MAX;
    let mut prior_entries = usize::MAX;
    for size in (1..=original.len()).rev() {
        let (disk, _) = Disk::open(original[..size].to_vec());
        if size < 16 {
            assert!(disk.log.was_invalidated(), "size={size}");
            continue;
        }
        assert!(disk.log.nodes().len() <= prior_nodes, "size={size}");
        assert!(disk.log.entries().len() <= prior_entries, "size={size}");
        prior_nodes = disk.log.nodes().len();
        prior_entries = disk.log.entries().len();
    }
}

#[test]
fn upstream_malformed_and_duplicate_path_records_recover_the_valid_prefix() {
    let original = write_sample_log();

    for (name, bad) in [
        ("truncated size", original[..19].to_vec()),
        ("oversized record", {
            let mut bad = original.clone();
            bad[16..20].copy_from_slice(&0xffff_aa55u32.to_le_bytes());
            bad
        }),
        ("undersized record", {
            let mut bad = original.clone();
            bad[16..20].copy_from_slice(&1u32.to_le_bytes());
            bad
        }),
    ] {
        let (disk, _) = Disk::open(bad);
        assert!(disk.log.was_recovered(), "{name}");
        assert_eq!(disk.file.len(), 16, "{name}");
    }

    let mut duplicate = original.clone();
    duplicate.extend_from_slice(&[
        0x0c, 0x00, 0x00, 0x00, b'f', b'o', b'o', b'.', b'h', 0x00, 0x00, 0x00, 0xfe, 0xff, 0xff,
        0xff,
    ]);
    let (recovered, _) = Disk::open(duplicate);
    assert!(recovered.log.was_recovered());
    assert_eq!(recovered.log.get("out.o").unwrap().inputs.len(), 2);
    assert_eq!(recovered.file.len(), original.len());
    let (clean, _) = Disk::open(recovered.file);
    assert!(!clean.log.was_recovered());
    assert_eq!(clean.log.get("out.o").unwrap().inputs.len(), 2);
}

#[test]
fn upstream_recompact_removes_entries_without_live_deps_edges() {
    let mut disk = Disk::new();
    disk.record("out.o", 1, &["foo.h", "bar.h"]);
    disk.record("other_out.o", 1, &["foo.h", "baz.h"]);
    disk.record("out.o", 1, &["foo.h"]);
    let before = disk.file.len();

    disk.file = disk.log.recompact_retain(|output| output == "out.o").unwrap();
    assert_eq!(disk.log.get("out.o").unwrap().inputs, ["foo.h"]);
    assert!(disk.log.get("other_out.o").is_none());
    assert!(disk.file.len() < before);

    disk.file = disk.log.recompact_retain(|_| false).unwrap();
    assert!(disk.log.get("out.o").is_none());
    assert_eq!(disk.file.len(), 16);
}

#[test]
fn records_are_written_byte_for_byte() {
    let mut disk = Disk::new();
    disk.record("o", 0x0102_0304_0506_0708, &["abcd"]);
    let mut expected = b"# ninjadeps\n\x04\x00\x00\x00".to_vec();
    expected.extend_from_slice(b"\x08\x00\x00\x00o\x00\x00\x00\xff\xff\xff\xff");
    expected.extend_from_slice(b"\x08\x00\x00\x00abcd\xfe\xff\xff\xff");
    expected.extend_from_slice(b"\x10\x00\x00\x80\x00\x00\x00\x00");
    expected.extend_from_slice(b"\x08\x07\x06\x05\x04\x03\x02\x01\x01\x00\x00\x00");
    assert_eq!(disk.file, expected);
}

#[test]
fn entries_that_do_not_fit_are_refused() {
    let mut file = log_header();
    let mut log = DepsLog::new();
    assert_eq!(log.record("", 1, &vec![], &mut file), Err(RecordTooLarge));
    let long = "x".repeat(0x80000);
    assert_eq!(
        log.record("o", 1, &vec![long], &mut file),
        Err(RecordTooLarge)
    );
    // The path that was written first is still read back.
    let (loaded, repair) = DepsLog::load(&file);
    assert_eq!(repair, Repair::Keep);
    assert_eq!(loaded.nodes(), &["o"]);
    assert!(loaded.get("o").is_none());
}

#[test]
fn paths_that_are_not_utf8_end_the_log() {
    let mut file = log_header();
    file.extend_from_slice(b"\x08\x00\x00\x00\xff\xfe\xfd\xfc\xff\xff\xff\xff");
    let (log, repair) = DepsLog::load(&file);
    assert_eq!(repair, Repair::Truncate(16));
    assert!(log.was_recovered());
    let mut disk = Disk::new();
    disk.record("größe", 1, &["ü"]);
    let (loaded, _) = Disk::open(disk.file);
    assert_eq!(loaded.log.get("größe").unwrap().inputs, ["ü"]);
}

#[test]
fn the_log_lies_in_the_build_directory() {
    assert_eq!(deps_log_path(None), ".ninja_deps");
    assert_eq!(deps_log_path(Some("")), ".ninja_deps");
    assert_eq!(deps_log_path(Some("out")), "out/.ninja_deps");
    assert_eq!(deps_log_path(Some("out/")), "out/.ninja_deps");
}

#[test]
fn compaction_numbers_paths_as_they_are_first_named() {
    let mut log = DepsLog::new();
    let mut out = Vec::new();
    log.record("o1", 1, &vec!["x".to_owned()], &mut out).unwrap();
    log.record("o2", 1, &Vec::new(), &mut out).unwrap();
    log.record("o3", 1, &Vec::new(), &mut out).unwrap();
    log.record("o1", 2, &vec!["o3".to_owned()], &mut out)
        .unwrap();
    assert_eq!(log.outputs_in_node_order(), ["o1", "o2", "o3"]);
    log.recompact().unwrap();
    assert_eq!(log.outputs_in_node_order(), ["o1", "o3", "o2"]);
    assert_eq!(log.nodes(), &["o1", "o3", "o2"]);
}

#[test]
fn the_log_is_joined_to_the_build_directory_of_the_system() {
    for (dir, expected) in [
        ("out", "out\\.ninja_deps"),
        ("out/", "out/.ninja_deps"),
        ("out\\", "out\\.ninja_deps"),
        ("C:", "C:.ninja_deps"),
        ("C:\\out", "C:\\out\\.ninja_deps"),
        ("", ".ninja_deps"),
    ] {
        assert_eq!(deps_log_path_on(Some(dir), true), expected);
    }
    assert_eq!(deps_log_path_on(None, true), ".ninja_deps");
    assert_eq!(deps_log_path_on(Some("C:"), false), "C:/.ninja_deps");
    assert_eq!(deps_log_path_on(Some("a\\"), false), "a\\/.ninja_deps");
}

#[test]
fn records_are_read_back_as_they_were_last_written() {
    let mut disk = Disk::new();
    let mut expected = Vec::new();
    for round in 1..4 {
        for (output, inputs) in [("a.o", ["x.h", "y.h"]), ("b.o", ["y.h", "z.h"])] {
            disk.record(output, round * 10, &inputs);
            expected.retain(|(known, _, _): &(&str, u64, [&str; 2])| *known != output);
            expected.push((output, round * 10, inputs));
        }
    }
    let (log, _) = DepsLog::load(&disk.file);
    for (output, mtime, inputs) in expected {
        let entry = log.get(output).unwrap();
        assert_eq!(entry.mtime, mtime);
        assert_eq!(entry.inputs, inputs);
    }
}

#[test]
fn compaction_asks_once_for_each_output() {
    let (mut disk, _) = Disk::open(write_sample_log());
    let asked = std::cell::RefCell::new(Vec::new());
    disk.log
        .recompact_retain(|output: &str| {
            asked.borrow_mut().push(output.to_owned());
            asked.borrow().len() == 1
        })
        .unwrap();
    assert_eq!(*asked.borrow(), ["out.o", "out2.o"]);
    assert!(disk.log.get("out.o").is_some());
    assert!(disk.log.get("out2.o").is_none());
}
