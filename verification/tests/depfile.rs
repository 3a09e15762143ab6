use knight_build::depfile::parse_depfile;

#[test]
fn parses_multiple_rules_outputs_and_continuations() {
    let parsed = parse_depfile("foo bar: x y\\\n z\nfoo: z q\n").unwrap();
    assert_eq!(parsed.outputs, ["foo", "bar"]);
    assert_eq!(parsed.inputs, ["x", "y", "z", "q"]);
}

#[test]
fn follows_ninja_backslash_and_dollar_escaping() {
    let source = format!(
        r"a\ bc\#d$$.o: {}  {} \\share\info\\#1",
        "\\".repeat(5),
        "\\".repeat(4)
    );
    let parsed = parse_depfile(&source).unwrap();
    assert_eq!(parsed.outputs, ["a bc#d$.o"]);
    assert_eq!(parsed.inputs, ["\\\\ ", "\\\\\\\\", "\\\\share\\info\\#1"]);
}

#[test]
fn rejects_missing_separator_and_poisoned_inputs() {
    assert_eq!(
        parse_depfile("foo.o foo.c").unwrap_err(),
        "expected ':' in depfile"
    );
    assert_eq!(
        parse_depfile("foo: x\nx: alsoin\n").unwrap_err(),
        "inputs may not also have inputs"
    );
}

#[test]
fn preserves_windows_drive_colons() {
    let parsed = parse_depfile("foo.o: C:\\src\\answer.c //?/c:/header.h\n").unwrap();
    assert_eq!(parsed.inputs, ["C:\\src\\answer.c", "//?/c:/header.h"]);
}

#[test]
fn matches_ninja_mp_and_mixed_rule_corpus() {
    for source in [
        "foo: x y z\nx:\ny:\nz:\n",
        "foo: x\nx:\nfoo: y\ny:\nfoo: z\nz:\n",
        "foo: x\\\n     y\nfoo \\\nfoo: z\n",
        " foo: x\r\n foo: y\r\n foo: z\r\n",
    ] {
        let parsed = parse_depfile(source).unwrap();
        assert_eq!(parsed.outputs, ["foo"], "source={source:?}");
        assert_eq!(parsed.inputs, ["x", "y", "z"], "source={source:?}");
    }
}

#[test]
fn matches_ninja_special_character_and_escaped_colon_cases() {
    let source = [
        "C:/Program\\ Files\\ (x86)/Microsoft\\ crtdefs.h: \\\n",
        " en@quot.header~ t+t-x!=1 \\\n",
        " openldap/cn={0}core.ldif\\\n",
        " Fussball\\\n",
        " a[1]b@2%c",
    ]
    .concat();
    let parsed = parse_depfile(&source).unwrap();
    assert_eq!(
        parsed.outputs,
        ["C:/Program Files (x86)/Microsoft crtdefs.h"]
    );
    assert_eq!(
        parsed.inputs,
        [
            "en@quot.header~",
            "t+t-x!=1",
            "openldap/cn={0}core.ldif",
            "Fussball",
            "a[1]b@2%c",
        ]
    );

    let parsed = parse_depfile("foo1\\: x\nfoo1\\:\nfoo1\\:\r\nfoo1\\:\t\nfoo1\\:").unwrap();
    assert_eq!(parsed.outputs, ["foo1\\"]);
    assert_eq!(parsed.inputs, ["x"]);
}

#[test]
fn parses_gcc_depfiles_with_continuations_and_escaped_spaces() {
    let source = [
        "out.o: source.c include/a.h \\\n",
        "  include/with\\ space.h\n",
    ]
    .concat();
    let deps = parse_depfile(&source).unwrap();
    assert_eq!(
        deps.inputs,
        ["source.c", "include/a.h", "include/with space.h"]
    );
    assert_eq!(
        parse_depfile("out.o: C:\\src\\answer.c C:\\inc\\answer.h\n")
            .unwrap()
            .inputs,
        ["C:\\src\\answer.c", "C:\\inc\\answer.h"]
    );
}

#[test]
fn lists_repeated_paths_once() {
    let parsed = parse_depfile("a b a: x y x\nb a: y z x\n").unwrap();
    assert_eq!(parsed.outputs, ["a", "b"]);
    assert_eq!(parsed.inputs, ["x", "y", "z"]);
}

#[test]
fn an_empty_depfile_names_nothing() {
    let parsed = parse_depfile(" \n\t\r\n").unwrap();
    assert!(parsed.outputs.is_empty());
    assert!(parsed.inputs.is_empty());
}

#[test]
fn keeps_paths_beyond_ascii() {
    let parsed = parse_depfile("übung.o: größe.h $$ä.h\n").unwrap();
    assert_eq!(parsed.outputs, ["übung.o"]);
    assert_eq!(parsed.inputs, ["größe.h", "$ä.h"]);
}

#[test]
fn line_ends_do_not_matter() {
    for source in ["a b: c \\\n  d\n\ne: f\n", "a:\n", "x: y z", "\n\na: b\n"] {
        let plain = parse_depfile(source).unwrap();
        let returned = parse_depfile(&source.replace('\n', "\r\n")).unwrap();
        assert_eq!(plain.outputs, returned.outputs);
        assert_eq!(plain.inputs, returned.inputs);
    }
}
