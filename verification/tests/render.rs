use knight_build::dyndep::parse_dyndep;
use knight_build::dyndep_apply::apply_dyndep_files;
use knight_build::loader::parse_manifest_with;
use knight_build::manifest::Settings;
use knight_build::parse_manifest;
use knight_build::render::render_binding;
use knight_build::render::render_unescaped_binding;
use knight_build::render::shell_escape_path;

#[test]
fn eagerly_expanded_bindings_remain_literal_in_rule_expansion() {
    let manifest = parse_manifest(
        "bar = X\nfoo = $$bar\nrule echo\n  command = echo $foo\nbuild out: echo\n",
        "build.ninja",
    )
    .unwrap();
    assert_eq!(
        render_binding(&manifest, &manifest.edges[0], "command", false),
        "echo $bar"
    );

    let manifest = parse_manifest(
        "name = expanded\nliteral = $$name\nrule echo\n  command = echo $value\nbuild out: echo\n  value = $literal\n",
        "build.ninja",
    )
    .unwrap();
    assert_eq!(
        render_binding(&manifest, &manifest.edges[0], "command", false),
        "echo $name"
    );
}

#[test]
fn path_bindings_can_disable_in_out_shell_escaping() {
    let manifest = parse_manifest(
        "rule cc\n  command = cc @$rspfile $in\n  depfile = $out.d\n  rspfile = $out.rsp\n  rspfile_content = $in_newline\nbuild foo$ bar.o: cc source$ file.c\n",
        "build.ninja",
    )
    .unwrap();
    let edge = &manifest.edges[0];
    assert_eq!(
        render_unescaped_binding(&manifest, edge, "depfile"),
        "foo bar.o.d"
    );
    assert_eq!(
        render_unescaped_binding(&manifest, edge, "rspfile"),
        "foo bar.o.rsp"
    );
    assert!(render_binding(&manifest, edge, "command", false).contains("source file.c"));
    assert_eq!(
        render_binding(&manifest, edge, "command", false),
        "cc @'foo bar.o'.rsp 'source file.c'"
    );
    assert_eq!(
        render_binding(&manifest, edge, "command", true),
        "cc @\"foo bar.o\".rsp \"source file.c\""
    );
}

#[test]
fn escapes_windows_command_line_paths() {
    assert_eq!(shell_escape_path("plain/path", true), "plain/path");
    assert_eq!(
        shell_escape_path("path with space\\", true),
        "\"path with space\\\\\""
    );
    assert_eq!(
        shell_escape_path("a \\\"quoted\" b", true),
        "\"a \\\\\\\"quoted\\\" b\""
    );
}

#[test]
fn escapes_posix_command_line_paths() {
    assert_eq!(shell_escape_path("a/b-c_d+e.f", false), "a/b-c_d+e.f");
    assert_eq!(shell_escape_path("a b", false), "'a b'");
    assert_eq!(shell_escape_path("it's", false), "'it'\\''s'");
    assert_eq!(shell_escape_path("", false), "");
}

#[test]
fn lists_of_paths_are_separated_by_spaces_or_lines() {
    let manifest = parse_manifest(
        "rule r\n  command = c $in $out $in_newline\nbuild x y | z: r a b$ c | d\n",
        "build.ninja",
    )
    .unwrap();
    assert_eq!(
        render_binding(&manifest, &manifest.edges[0], "command", false),
        "c a 'b c' x y a\n'b c'"
    );
    assert_eq!(
        render_unescaped_binding(&manifest, &manifest.edges[0], "command"),
        "c a b c x y a\nb c"
    );
}

#[test]
fn dyndep_files_add_inputs_outputs_and_restat() {
    let source = "rule r\n  command = c\nbuild a: r in || dd\n  dyndep = dd\nbuild b: r in || dd\n  dyndep = dd\nbuild c: r\n";
    let files = vec!["dd".to_owned()];
    let apply = |text: &str| {
        let mut manifest = parse_manifest(source, "build.ninja").unwrap();
        let parsed = vec![parse_dyndep(text, "dd")];
        apply_dyndep_files(&mut manifest, &files, &parsed, false).map(|()| manifest)
    };
    let manifest = apply(
        "ninja_dyndep_version = 1\nbuild ./a | a2: dyndep | x/../y y\n  restat = 1\nbuild b: dyndep\n",
    )
    .unwrap();
    assert_eq!(manifest.edges[0].implicit_outputs, ["a2"]);
    assert_eq!(manifest.edges[0].implicit_inputs, ["y"]);
    assert_eq!(manifest.edges[0].bindings["restat"], "1");
    assert!(manifest.edges[1].implicit_inputs.is_empty());
    assert_eq!(
        apply("ninja_dyndep_version = 1\nbuild a: dyndep\n").unwrap_err(),
        "'b' not mentioned in its dyndep file 'dd'"
    );
    assert_eq!(
        apply("ninja_dyndep_version = 1\nbuild a: dyndep\nbuild q: dyndep\n").unwrap_err(),
        "dd: no build statement exists for 'q'"
    );
    assert_eq!(
        apply("ninja_dyndep_version = 1\nbuild a: dyndep\nbuild ./a: dyndep\n").unwrap_err(),
        "dd: multiple statements for 'a'"
    );
    assert_eq!(
        apply("ninja_dyndep_version = 1\nbuild a: dyndep\nbuild b: dyndep\nbuild c: dyndep\n")
            .unwrap_err(),
        "dyndep file 'dd' mentions output 'c' whose build statement does not have a dyndep binding for the file"
    );
    assert_eq!(
        apply("ninja_dyndep_version = 1\nbuild a | c: dyndep\nbuild b: dyndep\n").unwrap_err(),
        "multiple rules generate c"
    );
    assert_eq!(
        apply("").unwrap_err(),
        "dd:1: expected 'ninja_dyndep_version = ...'"
    );
}

#[test]
fn separators_are_those_with_which_paths_were_first_written() {
    let settings = Settings {
        ninja: false,
        windows: true,
    };
    let source = "rule r\n  command = c $in $out $in_newline\n  depfile = $out.d\nbuild out\\x/y: r in\\a b/c .\\d\\..\\e\\f\nbuild z: r out/x/y\n";
    let manifest = parse_manifest_with(settings, source, "build.ninja").unwrap();
    assert_eq!(manifest.edges[0].explicit_outputs, ["out/x/y"]);
    assert_eq!(
        render_binding(&manifest, &manifest.edges[0], "command", true),
        "c in\\a b/c e\\f out\\x/y in\\a\nb/c\ne\\f"
    );
    assert_eq!(
        render_unescaped_binding(&manifest, &manifest.edges[0], "depfile"),
        "out\\x/y.d"
    );
    assert_eq!(
        render_binding(&manifest, &manifest.edges[1], "command", true),
        "c out\\x/y z out\\x/y"
    );
}
