use knight_build::loader::Loader;
use knight_build::loader::Step;
use knight_build::loader::Supply;
use knight_build::manifest::Settings;
use knight_build::program_name;
use knight_build::Diagnostic;
use knight_build::Manifest;

const KNIGHT: Settings = Settings {
    ninja: false,
    windows: false,
};

const NINJA: Settings = Settings {
    ninja: true,
    windows: false,
};

/// Loads `root` from files that are given as path, identity and contents.
fn load(
    settings: Settings,
    root: &str,
    files: &[(&str, &str, &str)],
) -> Result<Manifest, Diagnostic> {
    let mut loader = Loader::new(settings, root);
    loop {
        let supply = match files.iter().find(|file| file.0 == loader.wanted()) {
            Some(file) => Supply::Found {
                identity: file.1.to_owned(),
                contents: Ok(file.2.to_owned()),
            },
            None => Supply::Missing("No such file or directory (os error 2)".to_owned()),
        };
        match loader.supply(supply) {
            Step::More(next) => loader = next,
            Step::Finished(result) => return result,
        }
    }
}

#[test]
fn upstream_disk_interface_read_file_case() {
    let error = load(KNIGHT, "foobar", &[]).unwrap_err();
    assert!(error.message.starts_with("loading manifest: "));

    let parsed = load(
        KNIGHT,
        "testfile",
        &[(
            "testfile",
            "1",
            "value = test content\nbuild ok: phony\ndefault ok\n",
        )],
    )
    .unwrap();
    assert_eq!(parsed.variables["value"], "test content");
    assert_eq!(parsed.edges[0].explicit_outputs, ["ok"]);
}

#[test]
fn detects_include_cycles_through_hard_links() {
    let contents = "include alias.ninja\n";
    let error = load(
        KNIGHT,
        "build.ninja",
        &[
            ("build.ninja", "same", contents),
            ("alias.ninja", "same", contents),
        ],
    )
    .unwrap_err();
    assert_eq!(error.message, "include cycle detected");
}

#[test]
fn included_files_share_a_scope_and_subninjas_do_not() {
    let manifest = load(
        KNIGHT,
        "build.ninja",
        &[
            (
                "build.ninja",
                "1",
                "x = outer\ninclude one.ninja\nsubninja two.ninja\nbuild $x: phony\n",
            ),
            (
                "one.ninja",
                "2",
                "x = included\nrule r\n  command = one\n",
            ),
            (
                "two.ninja",
                "3",
                "y = $x\nx = inner\nrule r\n  command = two\nbuild ${x}-$y: r\n",
            ),
        ],
    )
    .unwrap();
    assert_eq!(manifest.variables["x"], "included");
    assert_eq!(manifest.edges[0].explicit_outputs, ["inner-included"]);
    assert_eq!(manifest.edges[0].scope, 1);
    assert_eq!(manifest.edges[1].explicit_outputs, ["included"]);
    assert_eq!(manifest.rules["r"].bindings["command"], "one");
    let inner = manifest.lookup_rule(1, "r").unwrap();
    assert_eq!(inner.bindings["command"], "two");
    assert_eq!(manifest.all_rules().len(), 2);
}

#[test]
fn a_file_may_be_included_again_once_it_is_done() {
    let manifest = load(
        KNIGHT,
        "build.ninja",
        &[
            (
                "build.ninja",
                "1",
                "subninja part.ninja\nsubninja part.ninja\n",
            ),
            ("part.ninja", "2", "a = 1\n"),
        ],
    )
    .unwrap();
    assert_eq!(manifest.scopes.len(), 3);
}

#[test]
fn missing_included_files_are_reported_where_they_are_named() {
    let files = [
        ("build.ninja", "1", "\nsubninja sub.ninja\n"),
        ("sub.ninja", "2", "include gone.ninja\n"),
    ];
    let error = load(KNIGHT, "build.ninja", &files).unwrap_err();
    assert_eq!(error.path, "sub.ninja");
    assert_eq!((error.line, error.column), (1, 19));
    assert_eq!(
        error.message,
        "loading included manifest 'gone.ninja': No such file or directory"
    );
    let error = load(NINJA, "build.ninja", &files).unwrap_err();
    assert_eq!(
        error.message,
        "loading 'gone.ninja': No such file or directory"
    );
}

#[test]
fn unreadable_files_are_reported() {
    let loader = Loader::new(KNIGHT, "build.ninja");
    let step = loader.supply(Supply::Found {
        identity: "1".to_owned(),
        contents: Err("stream did not contain valid UTF-8".to_owned()),
    });
    match step {
        Step::Finished(Err(error)) => assert_eq!(
            error.ninja_manifest_load_message().unwrap(),
            "loading 'build.ninja': stream did not contain valid UTF-8"
        ),
        _ => panic!("expected an error"),
    }
}

#[test]
fn errors_of_included_files_keep_their_place() {
    let error = load(
        KNIGHT,
        "build.ninja",
        &[
            ("build.ninja", "1", "include part.ninja\n"),
            ("part.ninja", "2", "a = 1\nrule\n"),
        ],
    )
    .unwrap_err();
    assert_eq!(error.path, "part.ninja");
    assert_eq!(error.line, 2);
    assert_eq!(error.message, "expected rule name");
}

#[test]
fn diagnostics_are_rendered() {
    let error = load(KNIGHT, "b", &[("b", "1", "x = 1\nrule !\n")]).unwrap_err();
    assert_eq!(
        error.render(),
        "b:2:6: error: expected rule name\n  rule !\n       ^"
    );
    assert_eq!(
        error.ninja_message(None, false),
        "b:2: expected rule name\nrule !\n     ^ near here"
    );
    assert_eq!(
        error.ninja_message(Some("x = 1\nrule ?\r\n"), true),
        "b:2: expected rule name\nrule ?\r\r\n     ^ near here"
    );
    assert_eq!(error.ninja_manifest_load_message(), None);
    let error = load(KNIGHT, "b", &[("b", "1", "rule r\n")]).unwrap_err();
    assert_eq!(
        error.ninja_message(Some("rule r\n"), false),
        "b:2: expected 'command =' line\n"
    );
    assert_eq!(error.render(), "b:2:1: error: expected 'command =' line\n");
    let error = load(KNIGHT, "gone", &[]).unwrap_err();
    assert_eq!(
        error.ninja_manifest_load_message().as_deref(),
        Some("loading 'gone': No such file or directory")
    );
    assert_eq!(
        error.ninja_manifest_load_message_on(true).as_deref(),
        Some("loading 'gone': No such file or directory\r\r\n")
    );
}

#[test]
fn the_program_reports_under_its_name() {
    assert_eq!(program_name(Some("ninja")), "ninja");
    assert_eq!(program_name(Some("NINJA")), "ninja");
    assert_eq!(program_name(Some("knight")), "knight");
    assert_eq!(program_name(None), "knight");
}

#[test]
fn a_file_can_be_drawn_in_twice_but_not_into_itself() {
    let parsed = load(
        KNIGHT,
        "build.ninja",
        &[
            (
                "build.ninja",
                "root",
                "include values.ninja\ninclude values.ninja\nbuild out: phony $value\n",
            ),
            ("values.ninja", "values", "value = again\n"),
        ],
    )
    .unwrap();
    assert_eq!(parsed.edges[0].explicit_inputs, ["again"]);

    let error = load(
        KNIGHT,
        "build.ninja",
        &[
            ("build.ninja", "root", "include middle.ninja\n"),
            ("middle.ninja", "middle", "subninja build.ninja\n"),
        ],
    )
    .unwrap_err();
    assert_eq!(error.message, "include cycle detected");
}
