use knight_build::binding::binding_cycle;
use knight_build::binding::evaluate_edge_binding;
use knight_build::build_line::parse_edge;
use knight_build::expand::expand;
use knight_build::loader::parse_manifest_with;
use knight_build::manifest::Settings;
use knight_build::parse_manifest;
use knight_build::version::required_version_incompatible;
use std::collections::HashMap;
use std::collections::HashSet;

#[test]
fn parses_core_manifest_syntax() {
    let source = r#"
cc = clang
rule compile
  command = $cc -c $in -o $out
  description = CC $out
pool link_pool
  depth = 1
build obj/foo$ bar.o | obj/foo.d: compile src/foo$ bar.c | config.h || generated.h |@ lint
  flags = -O2
default obj/foo$ bar.o
"#;
    let manifest = parse_manifest(source, "build.ninja").unwrap();
    assert_eq!(
        manifest.rules["compile"].bindings["command"],
        "$cc -c $in -o $out"
    );
    assert_eq!(manifest.pools["link_pool"].depth, 1);
    let edge = &manifest.edges[0];
    assert_eq!(edge.explicit_outputs, ["obj/foo bar.o"]);
    assert_eq!(edge.implicit_outputs, ["obj/foo.d"]);
    assert_eq!(edge.explicit_inputs, ["src/foo bar.c"]);
    assert_eq!(edge.implicit_inputs, ["config.h"]);
    assert_eq!(edge.order_only_inputs, ["generated.h"]);
    assert_eq!(edge.validations, ["lint"]);
}


#[test]
fn upstream_manifest_parser_semantic_corpus() {
    let manifest = parse_manifest(
        &[
            "rule cat\n",
            "  command = cat $in > $out\n",
            "  depfile = deps.d\n",
            "  deps = gcc\n",
            "  description = compile\n",
            "  generator = 1\n",
            "  restat = 1\n",
            "  rspfile = args.rsp\n",
            "  rspfile_content = $in\n",
            "build result: cat in_1.cc in-2.O\n",
        ].concat(),
        "build.ninja",
    )
    .unwrap();
    let rule = &manifest.rules["cat"];
    assert_eq!(rule.name, "cat");
    assert_eq!(rule.bindings.len(), 8);
    assert_eq!(rule.bindings["command"], "cat $in > $out");
    assert_eq!(rule.bindings["rspfile_content"], "$in");
    assert_eq!(manifest.edges[0].explicit_inputs, ["in_1.cc", "in-2.O"]);

    for (name, binding) in [("depfile", "depfile = deps.d"), ("deps", "deps = gcc")] {
        let source = format!("rule cc\n  command = cc\n  {binding}\nbuild a.o b.o: cc c.cc\n");
        let manifest = parse_manifest(&source, "build.ninja").unwrap();
        assert_eq!(
            manifest.edges[0].explicit_outputs,
            ["a.o", "b.o"],
            "case={name}"
        );
    }

    let manifest = parse_manifest(
        &[
            "l = one-letter-test\n",
            "rule link\n",
            "  command = ld $l $extra $with_under -o $out $in\n",
            "extra = -pthread\n",
            "with_under = -under\n",
            "build a: link b c\n",
            "nested1 = 1\n",
            "nested2 = $nested1/2\n",
            "build supernested: link x\n",
            "  extra = $nested2/3\n",
        ].concat(),
        "build.ninja",
    )
    .unwrap();
    assert_eq!(
        evaluate_edge_binding(&manifest, &manifest.edges[0], "command", 0),
        "ld one-letter-test -pthread -under -o a b c"
    );
    assert_eq!(manifest.lookup_variable(0, "nested2"), Some("1/2"));
    assert_eq!(
        evaluate_edge_binding(&manifest, &manifest.edges[1], "command", 0),
        "ld one-letter-test 1/2/3 -under -o supernested x"
    );

    let manifest = parse_manifest(
        &[
            "foo = bar\n",
            "rule cmd\n",
            "  command = cmd $foo $in $out\n",
            "build inner: cmd a\n",
            "  foo = baz\n",
            "build outer: cmd b\n",
        ].concat(),
        "build.ninja",
    )
    .unwrap();
    assert_eq!(
        evaluate_edge_binding(&manifest, &manifest.edges[0], "command", 0),
        "cmd baz a inner"
    );
    assert_eq!(
        evaluate_edge_binding(&manifest, &manifest.edges[1], "command", 0),
        "cmd bar b outer"
    );

    let manifest = parse_manifest(
        &[
            "backslash = bar\\baz\n",
            "backslash_space = bar\\ baz\n",
            "hash = not # a comment\n",
            "rule escaped\n",
            "  command = ${out}bar$$baz$$$\n",
            "blah\n",
            "x = $$dollar\n",
            "build $x: escaped y\n",
        ].concat(),
        "build.ninja",
    )
    .unwrap();
    assert_eq!(manifest.variables["backslash"], "bar\\baz");
    assert_eq!(manifest.variables["backslash_space"], "bar\\ baz");
    assert_eq!(manifest.variables["hash"], "not # a comment");
    assert_eq!(manifest.variables["x"], "$dollar");
    assert_eq!(manifest.edges[0].explicit_outputs, ["$dollar"]);
    assert_eq!(
        evaluate_edge_binding(&manifest, &manifest.edges[0], "command", 0),
        "$dollarbar$baz$blah"
    );

    let manifest = parse_manifest(
        &[
            "rule cat\n",
            "  command = cat $in_newline > $out\n",
            "dir = out\n",
            "build $dir/exe: cat ./bar/baz/../foo.cc second.cc\n",
        ].concat(),
        "build.ninja",
    )
    .unwrap();
    assert_eq!(manifest.edges[0].explicit_outputs, ["out/exe"]);
    assert_eq!(
        manifest.edges[0].explicit_inputs,
        ["bar/foo.cc", "second.cc"]
    );
    assert_eq!(
        evaluate_edge_binding(&manifest, &manifest.edges[0], "command", 0),
        "cat bar/foo.cc\nsecond.cc > out/exe"
    );

    let manifest = parse_manifest(
        &[
            "rule cat\n  command = cat\n",
            "build explicit | implicit: cat in | implicit-in || order |@ validation\n",
            "build | only-implicit: cat\n",
            "default explicit only-implicit\n",
        ].concat(),
        "build.ninja",
    )
    .unwrap();
    let edge = &manifest.edges[0];
    assert_eq!(edge.explicit_outputs, ["explicit"]);
    assert_eq!(edge.implicit_outputs, ["implicit"]);
    assert_eq!(edge.explicit_inputs, ["in"]);
    assert_eq!(edge.implicit_inputs, ["implicit-in"]);
    assert_eq!(edge.order_only_inputs, ["order"]);
    assert_eq!(edge.validations, ["validation"]);
    assert!(manifest.edges[1].explicit_outputs.is_empty());
    assert_eq!(manifest.edges[1].implicit_outputs, ["only-implicit"]);
    assert_eq!(manifest.defaults, ["explicit", "only-implicit"]);
    let empty_implicit = parse_manifest(
        "rule cat\n  command = cat\nbuild explicit | : cat\n",
        "build.ninja",
    )
    .unwrap();
    assert_eq!(empty_implicit.edges[0].explicit_outputs, ["explicit"]);
    assert!(empty_implicit.edges[0].implicit_outputs.is_empty());

    for (name, source, expected) in [
        (
            "explicit",
            "rule cat\n  command = cat\nbuild result: cat dd\n  dyndep = dd\n",
            "dd",
        ),
        (
            "implicit",
            "rule cat\n  command = cat\nbuild result: cat in | dd\n  dyndep = dd\n",
            "dd",
        ),
        (
            "order-only",
            "rule cat\n  command = cat\nbuild result: cat in || dd\n  dyndep = dd\n",
            "dd",
        ),
        (
            "rule",
            "rule cat\n  command = cat\n  dyndep = $in\nbuild result: cat dd\n",
            "dd",
        ),
    ] {
        let manifest = parse_manifest(source, "build.ninja").unwrap();
        assert_eq!(
            evaluate_edge_binding(&manifest, &manifest.edges[0], "dyndep", 0),
            expected,
            "case={name}"
        );
    }
    let no_dyndep = parse_manifest("build result: phony\n", "build.ninja").unwrap();
    assert_eq!(
        evaluate_edge_binding(&no_dyndep, &no_dyndep.edges[0], "dyndep", 0),
        ""
    );

    let utf8_and_crlf = parse_manifest(
        &[
            "# comment\r\nrule utf8\r\n  command = true\r\n  description = compilaci",
            "\u{00f3}\r\n",
        ].concat(),
        "build.ninja",
    )
    .unwrap();
    assert_eq!(
        utf8_and_crlf.rules["utf8"].bindings["description"],
        "compilaci\u{00f3}"
    );
}


#[test]
fn upstream_manifest_parser_case_inventory_is_complete() {
    const CASES: [&str; 53] = [
        "Empty",
        "Rules",
        "RuleAttributes",
        "IgnoreIndentedComments",
        "IgnoreIndentedBlankLines",
        "ResponseFiles",
        "InNewline",
        "Variables",
        "VariableScope",
        "Continuation",
        "Backslash",
        "Comment",
        "Dollars",
        "EscapeSpaces",
        "CanonicalizeFile",
        "CanonicalizeFileBackslashes",
        "PathVariables",
        "CanonicalizePaths",
        "CanonicalizePathsBackslashes",
        "DuplicateEdgeWithMultipleOutputsError",
        "DuplicateEdgeInIncludedFile",
        "PhonySelfReferenceIgnored",
        "PhonySelfReferenceKept",
        "ReservedWords",
        "Errors",
        "MissingInput",
        "MultipleOutputs",
        "MultipleOutputsWithDeps",
        "SubNinja",
        "MissingSubNinja",
        "DuplicateRuleInDifferentSubninjas",
        "DuplicateRuleInDifferentSubninjasWithInclude",
        "Include",
        "BrokenInclude",
        "Implicit",
        "OrderOnly",
        "Validations",
        "ImplicitOutput",
        "ImplicitOutputEmpty",
        "ImplicitOutputDupeError",
        "ImplicitOutputDupesError",
        "NoExplicitOutput",
        "DefaultDefault",
        "DefaultDefaultCycle",
        "DefaultStatements",
        "UTF8",
        "CRLF",
        "DyndepNotSpecified",
        "DyndepNotInput",
        "DyndepExplicitInput",
        "DyndepImplicitInput",
        "DyndepOrderOnlyInput",
        "DyndepRuleInput",
    ];
    let unique = CASES.into_iter().collect::<HashSet<_>>();
    assert_eq!(unique.len(), CASES.len());
}


#[test]
fn tracks_whether_dependency_metadata_can_be_used() {
    let plain = parse_manifest("build out: phony\n", "build.ninja").unwrap();
    assert!(!plain.has_dependency_bindings());

    let rule_binding = parse_manifest(
        "rule cc\n  command = cc\n  deps = gcc\nbuild out: cc\n",
        "build.ninja",
    )
    .unwrap();
    assert!(rule_binding.has_dependency_bindings());

    let edge_binding = parse_manifest(
        "rule cc\n  command = cc\nbuild out: cc\n  depfile = out.d\n",
        "build.ninja",
    )
    .unwrap();
    assert!(edge_binding.has_dependency_bindings());
}


#[test]
fn expansion_handles_ninja_escapes() {
    let vars = [
        ("name".to_owned(), "world".to_owned()),
        ("with-dash".to_owned(), "dash".to_owned()),
        ("with.dot".to_owned(), "dot".to_owned()),
    ]
    .into_iter()
    .collect::<HashMap<_, _>>();
    assert_eq!(
        expand(
            "hello $name $with-dash ${with.dot} $$ $: ${missing}",
            |name| vars.get(name).cloned()
        ),
        "hello world dash dot $ : "
    );
    assert_eq!(
        parse_manifest("value = $^\n", "build.ninja")
            .unwrap_err()
            .message,
        "using $^ escape requires specifying 'ninja_required_version' with version greater or equal 1.14"
    );
    let manifest = parse_manifest(
        "ninja_required_version = 1.14\nvalue = one$^two\n",
        "build.ninja",
    )
    .unwrap();
    assert_eq!(manifest.variables["value"], "one\ntwo");
}


#[test]
fn hash_is_only_a_comment_at_the_start_of_a_logical_line() {
    let manifest = parse_manifest(
        "# comment\n  # indented\nvalue = not # a comment\n",
        "build.ninja",
    )
    .unwrap();
    assert_eq!(manifest.variables["value"], "not # a comment");
}


#[test]
fn requires_a_final_newline_like_ninja() {
    let error = parse_manifest("value = complete", "build.ninja").unwrap_err();
    assert_eq!(error.message, "unexpected EOF");
    assert_eq!(error.column, 17);
}


#[test]
fn preserves_ninja_first_node_separator_spelling() {
    let manifest = parse_manifest_with(
        Settings {
            ninja: false,
            windows: true,
        },
        "rule echo\n  command = echo $in $out\n\
         build seed: phony dir/file\n\
         build out\\mixed/path\\file: echo dir\\file\n",
        "build.ninja",
    )
    .unwrap();
    let edge = &manifest.edges[1];
    assert_eq!(edge.explicit_output_slash_bits(), &[5]);
    assert_eq!(edge.explicit_input_slash_bits(), &[0]);
    assert_eq!(
        evaluate_edge_binding(&manifest, edge, "out", 0),
        r"out\mixed/path\file"
    );
    assert_eq!(evaluate_edge_binding(&manifest, edge, "in", 0), "dir/file");
}


#[test]
fn rejects_duplicate_outputs_after_canonicalization() {
    let error = parse_manifest(
        "build ./out: phony\nbuild dir/../out: phony\n",
        "build.ninja",
    )
    .unwrap_err();
    assert!(error.message.contains("multiple rules generate 'out'"));
}


#[test]
fn validates_rule_bindings_and_response_file_pairs() {
    parse_manifest(
        "rule cc\n  command = cc\n  dyndep = $out.dd\nbuild out: cc || out.dd\n",
        "build.ninja",
    )
    .unwrap();
    let dyndep = parse_manifest(
        "rule cc\n  command = cc\n  dyndep = missing\nbuild out: cc input\n",
        "build.ninja",
    )
    .unwrap_err();
    assert_eq!(dyndep.message, "dyndep 'missing' is not an input");
    let unknown = parse_manifest(
        "rule cc\n  command = cc\n  arbitrary = value\n",
        "build.ninja",
    )
    .unwrap_err();
    assert!(unknown.message.contains("unexpected variable 'arbitrary'"));

    let rsp = parse_manifest(
        "rule cc\n  command = cc\n  rspfile = args.rsp\n",
        "build.ninja",
    )
    .unwrap_err();
    assert_eq!(
        rsp.message,
        "rspfile and rspfile_content need to be both specified"
    );

    let dangling = parse_manifest("value = $", "build.ninja").unwrap_err();
    assert_eq!(
        dangling.message,
        "bad $-escape (literal $ must be written as $$)"
    );

    let empty_default = parse_manifest("default $missing\n", "build.ninja").unwrap_err();
    assert_eq!(empty_default.message, "empty path");
}


#[test]
fn logical_line_continuation_strips_leading_space_via_binding_trim() {
    let manifest = parse_manifest("x = one $\n    two\n", "build.ninja").unwrap();
    assert_eq!(manifest.variables["x"], "one two");
}


#[test]
fn blank_lines_end_binding_blocks_but_comments_do_not() {
    parse_manifest(
        "rule okay\n  command = okay\n  # comment\n  generator = 1\n",
        "build.ninja",
    )
    .unwrap();
    let error = parse_manifest(
        "rule broken\n  command = broken\n  \n  generator = 1\n",
        "build.ninja",
    )
    .unwrap_err();
    assert_eq!(error.message, "unexpected indentation");
}


#[test]
fn rejects_tab_indentation() {
    let error = parse_manifest("rule cc\n\tcommand = echo\nbuild out: cc\n", "build.ninja")
        .unwrap_err();
    assert_eq!(error.line, 2);
    assert_eq!(error.column, 1);
    assert_eq!(error.message, "tabs are not allowed, use spaces");
}


#[test]
fn rejects_duplicate_outputs() {
    let error = parse_manifest("build x: phony\nbuild x: phony\n", "b.ninja").unwrap_err();
    assert!(error.message.contains("multiple rules"));
}


#[test]
fn permits_edges_with_only_implicit_outputs() {
    let manifest = parse_manifest(
        "rule generate\n  command = generate\nbuild | implicit: generate\ndefault implicit\n",
        "build.ninja",
    )
    .unwrap();
    assert!(manifest.edges[0].explicit_outputs.is_empty());
    assert_eq!(manifest.edges[0].implicit_outputs, ["implicit"]);
}


#[test]
fn rejects_unknown_evaluated_pool_names() {
    let error = parse_manifest(
        "rule cc\n  command = cc\n  pool = $selected_pool\nbuild out: cc\n  selected_pool = missing\n",
        "b.ninja",
    )
    .unwrap_err();
    assert_eq!(error.message, "unknown pool name 'missing'");
}


#[test]
fn diagnoses_rule_binding_cycles() {
    let error = parse_manifest(
        "rule cc\n  command = $description\n  description = $command\nbuild out: cc\n",
        "b.ninja",
    )
    .unwrap_err();
    assert_eq!(
        error.message,
        "cycle in rule variables: command -> description -> command"
    );
}


#[test]
fn rejects_out_of_order_dependency_separators() {
    for statement in [
        "build out: phony || ordered | implicit\n",
        "build out: phony |@ validate || ordered\n",
        "build out: phony | one | two\n",
    ] {
        assert!(parse_manifest(statement, "b.ninja").is_err(), "{statement}");
    }
}


#[test]
fn edge_bindings_expand_against_the_parent_scope() {
    let manifest = parse_manifest(
        "x = global\nrule echo\n  command = echo $y\nbuild out: echo\n  x = edge\n  y = $x\n",
        "b.ninja",
    )
    .unwrap();
    assert_eq!(manifest.edges[0].bindings["y"], "global");
}


#[test]
fn edge_binding_can_break_but_not_hide_a_rule_cycle() {
    parse_manifest(
        "rule cc\n  command = $description\n  description = $command\nbuild good: cc\n  description = okay\n",
        "b.ninja",
    )
    .unwrap();
    let error = parse_manifest(
        "rule cc\n  command = $description\n  description = $command\nbuild good: cc\n  description = okay\nbuild bad: cc\n",
        "b.ninja",
    )
    .unwrap_err();
    assert!(error.message.contains("command -> description -> command"));
}


#[test]
fn enforces_required_syntax_version() {
    parse_manifest("ninja_required_version = 1.14\n", "b.ninja").unwrap();
    let error = parse_manifest("ninja_required_version = 99.0\n", "b.ninja").unwrap_err();
    assert!(error.message.contains("requires Ninja 99.0"));
}


#[test]
fn required_version_compatibility_uses_major_and_minor_like_ninja() {
    for compatible in ["1.14", "1.14.1", "1.14.99", "1.13", "0.99", "garbage"] {
        assert!(!required_version_incompatible(compatible, "1.14.0"));
    }
    for incompatible in ["1.15", "1.15.0", "2.0"] {
        assert!(required_version_incompatible(incompatible, "1.14.0"));
    }
}


#[test]
fn required_version_warning_and_newline_escape_gate_match_ninja_versions() {
    let manifest = parse_manifest("ninja_required_version = garbage\n", "build.ninja")
        .expect("nonnumeric required versions are compatible");
    assert_eq!(manifest.warnings.len(), 1);

    assert!(
        parse_manifest(
            "ninja_required_version = garbage\nvalue = before$^after\n",
            "build.ninja"
        )
        .unwrap_err()
        .message
        .contains("requires specifying 'ninja_required_version'")
    );
    assert!(
        parse_manifest(
            "ninja_required_version = 1.14.99\nvalue = before$^after\n",
            "build.ninja"
        )
        .is_ok()
    );
}


#[test]
fn upstream_lexer_value_identifier_and_escape_corpus() {
    let manifest = parse_manifest(
        &[
            "var = lower\n",
            "VaR = mixed\n",
            "x = braced\n",
            "plain = plain text $var $VaR ${x}\n",
            "escaped = $ $$ab c$: $\n",
            " cde\n",
            "foo.dots = dotted\n",
            "bar = base\n",
            "dot-expansion = $bar.dots ${foo.dots}\n",
        ].concat(),
        "build.ninja",
    )
    .unwrap();
    assert_eq!(manifest.variables["plain"], "plain text lower mixed braced");
    assert_eq!(manifest.variables["escaped"], " $ab c: cde");
    assert_eq!(manifest.variables["dot-expansion"], "base.dots dotted");

    let comment_eof = parse_manifest("# comment", "build.ninja").unwrap_err();
    assert_eq!(comment_eof.message, "unexpected EOF");
}

#[test]
fn errors_name_their_place() {
    for (source, line, column, message) in [
        ("rule\n", 1, 5, "expected rule name"),
        ("rule a/b\n", 1, 6, "expected rule name"),
        ("pool\n", 1, 5, "expected pool name"),
        ("pool !\n", 1, 6, "expected pool name"),
        ("build\n", 1, 6, "expected path"),
        ("default\n", 1, 8, "expected target name"),
        ("default  \n", 1, 8, "expected target name"),
        ("default a\n", 1, 10, "unknown target 'a'"),
        ("default a:b\n", 1, 10, "expected newline, got ':'"),
        ("rule a\n  command = x\nrule a\n", 3, 7, "duplicate rule 'a'"),
        ("pool a\n  depth = 1\npool a\n", 3, 7, "duplicate pool 'a'"),
        ("pool a\n  depth = -1\n", 2, 13, "invalid pool depth"),
        ("pool a\n  size = 1\n", 2, 11, "unexpected pool variable 'size'"),
        ("pool a\n", 2, 1, "expected 'depth =' line"),
        ("rule a\n", 2, 1, "expected 'command =' line"),
        ("rule a\n  command\n", 2, 3, "expected variable name"),
        ("  x = 1\n", 1, 1, "unexpected indentation"),
        ("foo\n", 1, 4, "expected '=', got newline"),
        ("foo", 1, 4, "expected '=', got eof"),
        ("foo bar\n", 1, 5, "expected '=', got identifier"),
        ("!\n", 1, 1, "expected a declaration"),
        ("x = $\n", 2, 1, "unexpected EOF"),
        ("x = $!\n", 1, 5, "bad $-escape (literal $ must be written as $$)"),
        ("x = ${\n", 1, 5, "bad $-escape (literal $ must be written as $$)"),
        ("build a: missing\n", 1, 10, "unknown build rule 'missing'"),
        (
            "build a\n",
            1,
            8,
            "expected ':', got newline ($ also escapes ':')",
        ),
        (
            "build a || b: phony\n",
            1,
            9,
            "expected ':', got '||' ($ also escapes ':')",
        ),
        ("build : phony\n", 1, 1, "build edge has no outputs"),
        ("build a:\n", 1, 9, "expected build rule after ':'"),
        ("build a: phony | b | c\n", 1, 20, "expected newline, got '|'"),
        ("build a: phony b : c\n", 1, 18, "expected newline, got ':'"),
        ("build $empty: phony\n", 2, 1, "empty path"),
    ] {
        let error = parse_manifest(source, "b.ninja").unwrap_err();
        assert_eq!(error.message, message, "{source:?}");
        assert_eq!((error.line, error.column), (line, column), "{source:?}");
        assert_eq!(error.path, "b.ninja");
    }
}

#[test]
fn columns_of_continued_lines_are_physical() {
    let error = parse_manifest("build a: $\n   phony $\n  b : c\n", "b.ninja").unwrap_err();
    assert_eq!(error.message, "expected newline, got ':'");
    assert_eq!((error.line, error.column), (3, 5));
    assert_eq!(error.source_line.as_deref(), Some("  b : c"));
}

#[test]
fn ninja_words_differ() {
    let settings = Settings {
        ninja: true,
        windows: false,
    };
    for (source, message) in [
        ("  x = 1\n", "unexpected indent"),
        ("pool a\n  size = 1\n", "unexpected variable 'size'"),
        ("build a:\n", "expected build command name"),
        ("build a: phony\nbuild a: phony\n", "multiple rules generate a"),
        ("build a a: phony\n", "a is defined as an output multiple times"),
    ] {
        let error = parse_manifest_with(settings, source, "b.ninja").unwrap_err();
        assert_eq!(error.message, message, "{source:?}");
    }
    // Without the stricter rule a tab is no indentation.
    let error = parse_manifest_with(settings, "rule a\n\tcommand = x\n", "b.ninja").unwrap_err();
    assert_eq!(error.message, "expected 'command =' line");
}

#[test]
fn duplicate_outputs_name_the_first_edge() {
    let error = parse_manifest("build x: phony\nbuild y x: phony\n", "b.ninja").unwrap_err();
    assert_eq!(
        error.message,
        "multiple rules generate 'x' (first at b.ninja:1)"
    );
    assert_eq!(error.line, 2);
}

#[test]
fn lookups_walk_the_scopes() {
    let manifest = parse_manifest(
        "a = 1\nrule r\n  command = c\n  pool = console\nbuild out: r\n",
        "b.ninja",
    )
    .unwrap();
    assert_eq!(manifest.lookup_variable(0, "a"), Some("1"));
    assert_eq!(manifest.lookup_variable(0, "b"), None);
    assert_eq!(manifest.lookup_variable(7, "a"), None);
    assert_eq!(manifest.lookup_rule(0, "r").unwrap().name, "r");
    assert!(manifest.lookup_rule(0, "s").is_none());
    assert_eq!(manifest.all_rules().len(), 1);
    assert!(manifest.has_pool_bindings());
    assert_eq!(manifest.edges[0].outputs(), ["out"]);
    assert!(manifest.edges[0].inputs().is_empty());
}

#[test]
fn longer_circles_are_told_from_their_least_binding() {
    let error = parse_manifest(
        "rule r\n  command = $rspfile\n  rspfile = $deps\n  rspfile_content = x\n  deps = $command\nbuild o: r\n",
        "b.ninja",
    )
    .unwrap_err();
    assert_eq!(
        error.message,
        "cycle in rule variables: command -> rspfile -> deps -> command"
    );
}

#[test]
fn plain_text_expands_to_itself() {
    let nothing = |_: &str| -> Option<String> { None };
    assert_eq!(expand("no escapes: {here}", nothing), "no escapes: {here}");
    assert_eq!(expand("$", nothing), "$");
    assert_eq!(expand("a${b", nothing), "a${b");
    assert_eq!(expand("$!x", nothing), "$!x");
    assert_eq!(expand("$^", nothing), "\n");
}

#[test]
fn escaped_paths_are_read_back() {
    let manifest = parse_manifest(
        "x = value\nbuild out: phony a$ b c$:d $$x e$$$ $:f\n",
        "build.ninja",
    )
    .unwrap();
    assert_eq!(
        manifest.edges[0].explicit_inputs,
        ["a b", "c:d", "$x", "e$ :f"]
    );
}

#[test]
fn line_feed_escapes_need_their_version() {
    for (version, accepted) in [
        ("1.13", false),
        ("1.13.9", false),
        ("1.14", true),
        ("1.14.0", true),
        ("1", false),
        ("", false),
        ("abc", false),
    ] {
        let source = format!("ninja_required_version = {version}\nvalue = before$^after\n");
        match parse_manifest(&source, "build.ninja") {
            Ok(manifest) => {
                assert!(accepted, "{version}");
                assert_eq!(manifest.variables["value"], "before\nafter");
            }
            Err(diagnostic) => {
                assert!(!accepted, "{version}");
                assert_eq!(
                    diagnostic.message,
                    "using $^ escape requires specifying 'ninja_required_version' with version greater or equal 1.14"
                );
            }
        }
    }
}

#[test]
fn defaults_are_known_before_they_are_named() {
    let message = |source: &str| parse_manifest(source, "build.ninja").unwrap_err().message;
    assert_eq!(
        message("build a: phony\ndefault a ./b\nbuild b: phony\n"),
        "unknown target 'b'"
    );
    assert_eq!(message("default $none\n"), "empty path");
    let manifest = parse_manifest("build x/../a: phony ./b\ndefault ./a b\n", "build.ninja").unwrap();
    assert_eq!(manifest.defaults, ["a", "b"]);
}

#[test]
fn edges_are_checked_before_they_enter() {
    let message = |source: &str| parse_manifest(source, "build.ninja").unwrap_err().message;
    assert_eq!(message("rule r\n  command = c\nbuild $none: r\n"), "empty path");
    assert_eq!(
        message("rule r\n  command = c\n  pool = deep\nbuild a: r\n"),
        "unknown pool name 'deep'"
    );
    assert_eq!(
        message("rule r\n  command = c\n  dyndep = dd\nbuild a: r b\n"),
        "dyndep 'dd' is not an input"
    );
    let circle = message("rule r\n  command = $depfile\n  depfile = $rspfile $depfile\n  rspfile = $command\n  rspfile_content = x\nbuild a: r\n");
    let names: Vec<&str> = circle
        .strip_prefix("cycle in rule variables: ")
        .unwrap()
        .split(" -> ")
        .collect();
    assert_eq!(names.first(), names.last());
    let distinct: HashSet<&&str> = names[1..].iter().collect();
    assert_eq!(distinct.len(), names.len() - 1);
}

#[test]
fn doubled_dollars_stand_for_dollars() {
    for text in ["", "$", "a$b${c}$", "$$ $:", "plain"] {
        let asked = std::cell::Cell::new(0);
        let expanded = expand(&text.replace('$', "$$"), |_: &str| {
            asked.set(asked.get() + 1);
            Some("value".to_owned())
        });
        assert_eq!(expanded, text);
        assert_eq!(asked.get(), 0);
    }
}

#[test]
fn references_are_looked_up_one_by_one() {
    let asked = std::cell::RefCell::new(Vec::new());
    let expanded = expand("$a ${b.c} $$x $a", |name: &str| {
        asked.borrow_mut().push(name.to_owned());
        Some(asked.borrow().len().to_string())
    });
    assert_eq!(expanded, "1 2 $x 3");
    assert_eq!(*asked.borrow(), ["a", "b.c", "a"]);
}


#[test]
fn build_lines_hold_canonical_paths() {
    let chars = |text: &str| text.chars().collect::<Vec<char>>();
    let (edge, bits) = parse_edge(
        &chars("obj/a | obj/b: cc ./x//y.c | i || o |@ v"),
        "b.ninja",
        3,
        false,
        false,
    )
    .unwrap();
    assert_eq!(edge.explicit_outputs, ["obj/a"]);
    assert_eq!(edge.implicit_outputs, ["obj/b"]);
    assert_eq!(edge.rule, "cc");
    assert_eq!(edge.explicit_inputs, ["x/y.c"]);
    assert_eq!(edge.implicit_inputs, ["i"]);
    assert_eq!(edge.order_only_inputs, ["o"]);
    assert_eq!(edge.validations, ["v"]);
    assert!(edge.bindings.is_empty());
    assert_eq!(edge.line, 3);
    assert_eq!(edge.source, "b.ninja");
    assert_eq!(bits, [0; 6]);

    // What holds a `$` is left until it can be expanded.
    let (edge, bits) =
        parse_edge(&chars("./out: cc ./$x//y.c ./z"), "b.ninja", 1, false, false).unwrap();
    assert_eq!(edge.explicit_outputs, ["out"]);
    assert_eq!(edge.explicit_inputs, ["./$x//y.c", "z"]);
    assert_eq!(bits, [0, 0, 0]);

    let (edge, bits) =
        parse_edge(&chars("obj\\a: cc x/y\\z.c"), "b.ninja", 1, false, true).unwrap();
    assert_eq!(edge.explicit_outputs, ["obj/a"]);
    assert_eq!(edge.explicit_inputs, ["x/y/z.c"]);
    assert_eq!(bits, [1, 2]);
}


#[test]
fn any_binding_of_a_rule_can_refer_to_itself() {
    let cycle = |bindings: &[(&str, &str)], own: &[(&str, &str)]| {
        let mut manifest = parse_manifest("rule cc\n  command = cc\nbuild out: cc\n", "b.ninja").unwrap();
        let mut rule = manifest.lookup_rule(0, "cc").unwrap().clone();
        rule.bindings.clear();
        for (name, value) in bindings {
            rule.bindings.insert((*name).to_owned(), (*value).to_owned());
        }
        manifest.scopes[0].rules.insert("cc".to_owned(), rule);
        for (name, value) in own {
            manifest.edges[0].bindings.insert((*name).to_owned(), (*value).to_owned());
        }
        binding_cycle(&manifest, &manifest.edges[0])
    };
    let found = |names: &[&str]| Some(names.iter().map(|name| (*name).to_owned()).collect::<Vec<_>>());
    assert_eq!(cycle(&[("flags", "$flags")], &[]), found(&["flags", "flags"]));
    assert_eq!(cycle(&[("flags", "$flags")], &[("flags", "-g")]), None);
    assert_eq!(
        cycle(&[("b", "${a} x"), ("a", "$b"), ("command", "$a")], &[]),
        found(&["a", "b", "a"])
    );
    assert_eq!(cycle(&[("in", "$in"), ("command", "$in $out")], &[]), None);
    assert_eq!(cycle(&[("command", "$$command $other")], &[]), None);
}


#[test]
fn a_default_stands_behind_its_path_whatever_follows() {
    let front = "rule cc\n  command = cc\nbuild out: cc\n";
    for back in ["", "build later: cc\n", "}} no statement\n", "  indented\n"] {
        let error =
            parse_manifest(&format!("{front}default out ./later\n{back}"), "b.ninja").unwrap_err();
        assert_eq!(error.message, "unknown target 'later'", "{back:?}");
        assert_eq!(error.line, 4);
    }
}
