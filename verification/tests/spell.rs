use knight_build::parse_manifest;
use knight_build::spell::edit_distance;
use knight_build::spell::edit_distance_with_replacements;
use knight_build::spellcheck;
use knight_build::unknown_target_message;

#[test]
fn upstream_edit_distance_corpus() {
    assert_eq!(edit_distance(b"", b"ninja", usize::MAX), 5);
    assert_eq!(edit_distance(b"ninja", b"", usize::MAX), 5);
    assert_eq!(edit_distance(b"", b"", usize::MAX), 0);
    for maximum in 1..7 {
        assert_eq!(
            edit_distance(b"abcdefghijklmnop", b"ponmlkjihgfedcba", maximum),
            maximum + 1
        );
    }
    assert_eq!(edit_distance(b"ninja", b"njnja", usize::MAX), 1);
    assert_eq!(edit_distance(b"njnja", b"ninja", usize::MAX), 1);
    assert_eq!(
        edit_distance_with_replacements(b"ninja", b"njnja", false, usize::MAX),
        2
    );
    assert_eq!(
        edit_distance_with_replacements(b"njnja", b"ninja", false, usize::MAX),
        2
    );
    assert_eq!(
        edit_distance(b"browser_tests", b"browser_tests", usize::MAX),
        0
    );
    assert_eq!(
        edit_distance(b"browser_test", b"browser_tests", usize::MAX),
        1
    );
    assert_eq!(
        edit_distance(b"browser_tests", b"browser_test", usize::MAX),
        1
    );
}

#[test]
fn distances_are_symmetric_and_bounded() {
    for (a, b, distance) in [("kitten", "sitting", 3), ("flaw", "lawn", 2), ("same", "same", 0)] {
        assert_eq!(edit_distance(a.as_bytes(), b.as_bytes(), 9), distance);
        assert_eq!(edit_distance(b.as_bytes(), a.as_bytes(), 9), distance);
    }
    assert_eq!(edit_distance(b"kitten", b"sitting", 2), 3);
}

#[test]
fn suggests_the_first_of_the_nearest() {
    assert_eq!(spellcheck("tst", &["best", "test", "tests"]), Some("test"));
    assert_eq!(spellcheck("ab", &["ax", "ay"]), Some("ax"));
    assert_eq!(spellcheck("completely", &["different"]), None);
    assert_eq!(spellcheck("x", &[]), None);
}

#[test]
fn unknown_targets_are_explained() {
    let manifest = parse_manifest("build hello: phony input\n", "build.ninja").unwrap();
    assert_eq!(
        unknown_target_message(&manifest, "helo"),
        "unknown target 'helo', did you mean 'hello'?"
    );
    assert_eq!(
        unknown_target_message(&manifest, "clean"),
        "unknown target 'clean', did you mean 'ninja -t clean'?"
    );
    assert_eq!(
        unknown_target_message(&manifest, "help"),
        "unknown target 'help', did you mean 'ninja -h'?"
    );
    assert_eq!(
        unknown_target_message(&manifest, "unrelated-name"),
        "unknown target 'unrelated-name'"
    );
}
