use knight_build::dyndep::parse_dyndep;
use knight_build::dyndep::parse_dyndep_among;
use knight_build::dyndep::KnownOutputs;
use knight_build::dyndep_apply::apply_dyndep_sources;
use knight_build::parse_manifest;
use rapidhash::RapidHashMap;
use knight_build::dyndep::DyndepRecord;

#[test]
fn parses_dynamic_inputs_outputs_and_restat() {
    let source = [
        "ninja_dyndep_version = 1\n",
        "build out | module.mod: dyndep | generated.h\n",
        "  restat = 1\n",
    ]
    .concat();
    let records = parse_dyndep(&source, "deps.dd").unwrap();
    assert_eq!(
        records,
        [DyndepRecord {
            output: "out".to_owned(),
            implicit_outputs: vec!["module.mod".to_owned()],
            implicit_inputs: vec!["generated.h".to_owned()],
            restat: true,
        }]
    );
}

#[test]
fn treats_zero_restat_as_false() {
    let records = parse_dyndep(
        "ninja_dyndep_version = 1\nbuild out: dyndep\n  restat = 0\n",
        "deps.dd",
    )
    .unwrap();
    assert!(!records[0].restat);
}

#[test]
fn accepts_version_suffixes_and_requires_a_final_newline() {
    for version in ["1", "1.0", "1-extra", "1.0-extra"] {
        parse_dyndep(&format!("ninja_dyndep_version = {version}\n"), "deps.dd").unwrap();
    }
    let error = parse_dyndep("ninja_dyndep_version = 1", "deps.dd").unwrap_err();
    assert!(error.contains("unexpected EOF"));
}

#[test]
fn rejects_validation_inputs() {
    let error = parse_dyndep(
        "ninja_dyndep_version = 1\nbuild out: dyndep |@ validation\n",
        "deps.dd",
    )
    .unwrap_err();
    assert!(error.contains("validation inputs not supported"));
}

#[test]
fn reports_each_error_with_its_line() {
    for (source, expected) in [
        ("", "d:1: expected 'ninja_dyndep_version = ...'"),
        ("# only\n", "d:1: expected 'ninja_dyndep_version = ...'"),
        ("version\n", "d:1: expected 'ninja_dyndep_version = ...'"),
        ("ninja_dyndep_version = 2\n", "d:1: unsupported dyndep version"),
        ("  restat = 1\n", "d:1: unexpected indentation"),
        ("ninja_dyndep_version = 1\nfoo\n", "d:2: expected build statement"),
        ("ninja_dyndep_version = 1\nbuild out dyndep\n", "d:2: expected ':'"),
        ("ninja_dyndep_version = 1\nbuild : dyndep\n", "d:2: expected output path"),
        (
            "ninja_dyndep_version = 1\nbuild a: dyndep\nbuild a: dyndep\n",
            "d:3: multiple statements for 'a'",
        ),
        (
            "ninja_dyndep_version = 1\nbuild a b: dyndep\n",
            "d:2: explicit outputs not supported",
        ),
        (
            "ninja_dyndep_version = 1\nbuild a | b | c: dyndep\n",
            "d:2: invalid output list",
        ),
        (
            "ninja_dyndep_version = 1\nbuild a: phony\n",
            "d:2: expected build command name 'dyndep'",
        ),
        (
            "ninja_dyndep_version = 1\nbuild a: dyndep b\n",
            "d:2: explicit inputs not supported",
        ),
        (
            "ninja_dyndep_version = 1\nbuild a: dyndep || b\n",
            "d:2: order-only inputs not supported",
        ),
        (
            "ninja_dyndep_version = 1\nbuild a: dyndep | b | c\n",
            "d:2: invalid input list",
        ),
        (
            "ninja_dyndep_version = 1\nbuild a: dyndep\n  restat\n",
            "d:3: expected 'restat = value'",
        ),
        (
            "ninja_dyndep_version = 1\nbuild a: dyndep\n  depth = 1\n",
            "d:3: binding is not 'restat'",
        ),
        (
            "ninja_dyndep_version = 1\nbuild a: dyndep",
            "d:2: unexpected EOF",
        ),
    ] {
        assert_eq!(parse_dyndep(source, "d").unwrap_err(), expected, "{source:?}");
    }
}

#[test]
fn unescapes_paths_and_skips_comments() {
    let records = parse_dyndep(
        "# head\nninja_dyndep_version = 1 # one\nbuild a$ b | $$x: dyndep | $:y # z\n\n  restat = yes\n",
        "d",
    )
    .unwrap();
    assert_eq!(records.len(), 1);
    assert_eq!(records[0].output, "a b");
    assert_eq!(records[0].implicit_outputs, ["$x"]);
    assert_eq!(records[0].implicit_inputs, [":y"]);
    assert!(records[0].restat);
}

#[test]
fn line_feed_escapes_are_forbidden() {
    let message = "using $^ escape requires specifying 'ninja_required_version' with version greater or equal 1.14";
    for (source, line) in [
        ("ninja_dyndep_version = 1\nbuild out: dyndep | a$^b\n", 2),
        ("ninja_dyndep_version = 1\nbuild out | a$^b: dyndep\n", 2),
        ("ninja_dyndep_version = 1\nbuild o$^t: dyndep\n", 2),
        ("ninja_dyndep_version = 1\nbuild out: dyndep | $^$%b\n", 2),
        ("ninja_dyndep_version = 1\nbuild out: dyndep\n  restat = $^\n", 3),
        ("ninja_dyndep_version = 1-$^\n", 1),
    ] {
        assert_eq!(
            parse_dyndep(source, "deps.dd").unwrap_err(),
            format!("deps.dd:{line}: {message}"),
            "{source:?}"
        );
    }
    assert_eq!(
        parse_dyndep("ninja_dyndep_version = 1\nbuild out: dyndep | a$$^b\n", "d").unwrap()[0]
            .implicit_inputs,
        ["a$^b"]
    );
}

#[test]
fn malformed_escapes_are_refused() {
    let message = "bad $-escape (literal $ must be written as $$)";
    for (source, line) in [
        ("ninja_dyndep_version = 1\nbuild out: dyndep | ${x\n", 2),
        ("ninja_dyndep_version = 1\nbuild out: dyndep | a ${}\n", 2),
        ("ninja_dyndep_version = 1\nbuild out: dyndep | ${a/b}\n", 2),
        ("ninja_dyndep_version = 1\nbuild out: dyndep | $%$^b\n", 2),
        ("ninja_dyndep_version = 1\nbuild out | ${x: dyndep\n", 2),
        ("ninja_dyndep_version = 1\nbuild ${x: dyndep\n", 2),
        ("ninja_dyndep_version = 1\nbuild out: dyndep\n  restat = ${x\n", 3),
        ("ninja_dyndep_version = 1-${x\n", 1),
    ] {
        assert_eq!(
            parse_dyndep(source, "deps.dd").unwrap_err(),
            format!("deps.dd:{line}: {message}"),
            "{source:?}"
        );
    }
    assert_eq!(
        parse_dyndep("ninja_dyndep_version = 1\nbuild out: dyndep | $${x\n", "d").unwrap()[0]
            .implicit_inputs,
        ["${x"]
    );
}

#[test]
fn lines_can_be_continued() {
    let records = parse_dyndep(
        "ninja_dyndep_version = $\n  1\nbuild o$\n  ut $\r\n  : dyndep | a $\n$\n  b\n  restat = $\n    1\n",
        "d",
    )
    .unwrap();
    assert_eq!(records.len(), 1);
    assert_eq!(records[0].output, "out");
    assert_eq!(records[0].implicit_inputs, ["a", "b"]);
    assert!(records[0].restat);
    assert_eq!(
        parse_dyndep(
            "ninja_dyndep_version = 1\nbuild a: dyndep $\nbuild b: dyndep\n",
            "d"
        )
        .unwrap_err(),
        "d:2: explicit inputs not supported"
    );
    assert_eq!(
        parse_dyndep(
            "ninja_dyndep_version = 1\nbuild a: dyndep # $\nbuild b: dyndep\n",
            "d"
        )
        .unwrap()
        .len(),
        2
    );
    assert_eq!(
        parse_dyndep("ninja_dyndep_version = 1\n\nbuild a: $\n  x\n", "d").unwrap_err(),
        "d:3: expected build command name 'dyndep'"
    );
}

#[test]
fn outputs_are_looked_up_before_the_rest_of_a_statement() {
    let mut outputs = RapidHashMap::default();
    outputs.insert("out".to_owned(), 0usize);
    let known = KnownOutputs {
        outputs: &outputs,
        windows: false,
    };
    for rest in ["", ": dyndep x", " b: dyndep", ": other", ": dyndep"] {
        let source = format!("ninja_dyndep_version = 1\nbuild ./no{rest}\n");
        assert_eq!(
            parse_dyndep_among(&source, "d", known).unwrap_err(),
            "d:2: no build statement exists for 'no'"
        );
    }
    assert_eq!(
        parse_dyndep_among("ninja_dyndep_version = 1\nbuild out: dyndep x\n", "d", known)
            .unwrap_err(),
        "d:2: explicit inputs not supported"
    );
    assert_eq!(
        parse_dyndep_among("ninja_dyndep_version = 1\nbuild x/../out: dyndep\n", "d", known)
            .unwrap()
            .len(),
        1
    );
}

#[test]
fn files_are_held_against_what_others_added() {
    let source = "rule r\n  command = r\nbuild a: r || one\n  dyndep = one\nbuild b: r || two\n  dyndep = two\n";
    let mut manifest = parse_manifest(source, "build.ninja").unwrap();
    let files = vec!["one".to_owned(), "two".to_owned()];
    let sources = vec![
        Ok("ninja_dyndep_version = 1\nbuild a | more: dyndep\n".to_owned()),
        Ok("ninja_dyndep_version = 1\nbuild b: dyndep | more\n".to_owned()),
    ];
    apply_dyndep_sources(&mut manifest, &files, &sources, false).unwrap();
    assert_eq!(manifest.edges[0].implicit_outputs, ["more"]);
    assert_eq!(manifest.edges[1].implicit_inputs, ["more"]);

    let mut manifest = parse_manifest(source, "build.ninja").unwrap();
    let sources = vec![
        Ok("ninja_dyndep_version = 1\nbuild a: dyndep\n".to_owned()),
        Err("loading 'two': gone".to_owned()),
    ];
    assert_eq!(
        apply_dyndep_sources(&mut manifest, &files, &sources, false),
        Err("loading 'two': gone".to_owned())
    );
    let sources = vec![
        Ok("ninja_dyndep_version = 1\nbuild x: phony\n".to_owned()),
        Err(String::new()),
    ];
    assert_eq!(
        apply_dyndep_sources(&mut manifest, &files, &sources, false),
        Err("one:2: no build statement exists for 'x'".to_owned())
    );
}
