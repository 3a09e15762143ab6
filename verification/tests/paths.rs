use knight_build::canonicalize_owned_path;
use knight_build::canonicalize_path;
use knight_build::paths::canonicalize_owned_path_with_bits;
use knight_build::paths::decanonicalize_path;
use knight_build::paths::path_needs_canonicalization;

fn windows_path(path: &str) -> String {
    canonicalize_owned_path_with_bits(path.to_owned(), true).0
}

#[test]
fn canonicalizes_ninja_path_identity() {
    for (input, expected) in [
        ("", ""),
        (".", "."),
        ("./foo/./bar", "foo/bar"),
        ("foo//bar/..", "foo"),
        ("foo/..", "."),
        ("./x/../foo/../../bar.h", "../bar.h"),
        ("/foo/..", "/"),
        ("/../..", "/../.."),
        ("../../foo/bar.h", "../../foo/bar.h"),
    ] {
        assert_eq!(canonicalize_path(input), expected, "input={input}");
    }
    for (input, expected) in [
        (r".\foo\.\bar.h", "foo/bar.h"),
        (r"foo\\.\\..\\\bar", "bar"),
        (r"\\server\share\file", "//server/share/file"),
        (r"C:\foo\..\bar", "C:/bar"),
    ] {
        assert_eq!(windows_path(input), expected, "input={input}");
    }
}

#[test]
fn upstream_canonicalize_path_corpus() {
    for windows in [false, true] {
        for (input, expected) in [
            ("", ""),
            ("foo.h", "foo.h"),
            ("./foo.h", "foo.h"),
            ("./foo/./bar.h", "foo/bar.h"),
            ("./x/foo/../bar.h", "x/bar.h"),
            ("./x/foo/../../bar.h", "bar.h"),
            ("foo//bar", "foo/bar"),
            ("foo//.//..///bar", "bar"),
            ("./x/../foo/../../bar.h", "../bar.h"),
            ("foo/./.", "foo"),
            ("foo/bar/..", "foo"),
            ("foo/.hidden_bar", "foo/.hidden_bar"),
            ("/foo", "/foo"),
            ("//foo", if windows { "//foo" } else { "/foo" }),
            ("..", ".."),
            ("../", ".."),
            ("../foo", "../foo"),
            ("../foo/", "../foo"),
            ("../..", "../.."),
            ("../../", "../.."),
            ("./../", ".."),
            ("/..", "/.."),
            ("/../", "/.."),
            ("/../..", "/../.."),
            ("/../../", "/../.."),
            ("/", "/"),
            ("/foo/..", "/"),
            (".", "."),
            ("./.", "."),
            ("foo/..", "."),
            ("foo/.._bar", "foo/.._bar"),
            ("../../foo/bar.h", "../../foo/bar.h"),
            ("test/../../foo/bar.h", "../foo/bar.h"),
            ("/usr/include/stdio.h", "/usr/include/stdio.h"),
        ] {
            let actual = if windows {
                windows_path(input)
            } else {
                canonicalize_path(input)
            };
            assert_eq!(actual, expected, "input={input}");
        }
    }
}

#[test]
fn upstream_canonicalize_path_length_and_component_corpus() {
    let source = "foo/. bar/.";
    assert_eq!(canonicalize_path(&source[..5]), "foo");
    assert_eq!(source, "foo/. bar/.");
    let source = "foo/../file bar/.";
    assert_eq!(canonicalize_path(&source[..11]), "file");
    assert_eq!(source, "foo/../file bar/.");

    let many = std::iter::repeat_n("a", 219)
        .chain(["x", "y.h"])
        .collect::<Vec<_>>()
        .join("/");
    let canonical = canonicalize_path(&many);
    assert_eq!(canonical.matches('/').count(), 220);
    assert!(canonical.ends_with("x/y.h"));

    let dotted = std::iter::repeat_n(["a", "."], 32)
        .flatten()
        .chain(["x.h"])
        .collect::<Vec<_>>()
        .join("/");
    let canonical = canonicalize_path(&dotted);
    assert_eq!(canonical.matches('/').count(), 32);
    assert!(canonical.ends_with("a/x.h"));
}

#[test]
fn upstream_windows_slash_tracking_corpus() {
    for (input, expected, slash_bits) in [
        (r"foo.h", "foo.h", 0),
        (r"a\foo.h", "a/foo.h", 1),
        (r"a/bcd/efh\foo.h", "a/bcd/efh/foo.h", 4),
        (r"a\bcd/efh\foo.h", "a/bcd/efh/foo.h", 5),
        (r"a\bcd\efh\foo.h", "a/bcd/efh/foo.h", 7),
        (r"a/bcd/efh/foo.h", "a/bcd/efh/foo.h", 0),
        (r"a\./efh\foo.h", "a/efh/foo.h", 3),
        (r"a\../efh\foo.h", "efh/foo.h", 1),
        (r"a\b\c\d\e\f\g\foo.h", "a/b/c/d/e/f/g/foo.h", 127),
        (r"a\b\c\..\..\..\g\foo.h", "g/foo.h", 1),
        (r"a\b/c\../../..\g\foo.h", "g/foo.h", 1),
        (r"a\b/c\./../..\g\foo.h", "a/g/foo.h", 3),
        (r"a\b/c\./../..\g/foo.h", "a/g/foo.h", 1),
        (r"a\\\foo.h", "a/foo.h", 1),
        (r"a/\\foo.h", "a/foo.h", 0),
        (r"a\//foo.h", "a/foo.h", 1),
    ] {
        assert_eq!(
            canonicalize_owned_path_with_bits(input.to_owned(), true),
            (expected.to_owned(), slash_bits),
            "input={input}"
        );
    }
}

#[test]
fn upstream_windows_canonicalize_path_corpus() {
    for (input, expected) in [
        (r"", ""),
        (r"foo.h", "foo.h"),
        (r".\foo.h", "foo.h"),
        (r".\foo\.\bar.h", "foo/bar.h"),
        (r".\x\foo\..\bar.h", "x/bar.h"),
        (r".\x\foo\..\..\bar.h", "bar.h"),
        (r"foo\\bar", "foo/bar"),
        (r"foo\\.\\..\\\bar", "bar"),
        (r".\x\..\foo\..\..\bar.h", "../bar.h"),
        (r"foo\.\.", "foo"),
        (r"foo\bar\..", "foo"),
        (r"foo\.hidden_bar", "foo/.hidden_bar"),
        (r"\foo", "/foo"),
        (r"\\foo", "//foo"),
        (r"\", "/"),
    ] {
        assert_eq!(windows_path(input), expected, "input={input}");
    }

    let path = std::iter::repeat_n("a", 220)
        .chain(std::iter::once("x.h"))
        .collect::<Vec<_>>()
        .join(r"\");
    let (canonical, slash_bits) = canonicalize_owned_path_with_bits(path, true);
    assert_eq!(canonical.matches('/').count(), 220);
    assert_eq!(slash_bits, u64::MAX);
}

#[test]
fn canonical_paths_stay_as_they_are() {
    for windows in [false, true] {
        for path in ["a/./b/../c", "/a//b/", "..\\x\\.\\y", "", ".", "//", "\\..\\a"] {
            let once = canonicalize_owned_path_with_bits(path.to_owned(), windows).0;
            let twice = canonicalize_owned_path_with_bits(once.clone(), windows).0;
            assert_eq!(once, twice, "path={path}");
        }
    }
}

#[test]
fn slash_bits_give_separators_back() {
    for (path, shortened) in [
        (r"a\b/c\.\d", r"a\b/c\d"),
        (r"\\server/share\x", r"\\server/share\x"),
        ("plain/path", "plain/path"),
    ] {
        let (canonical, bits) = canonicalize_owned_path_with_bits(path.to_owned(), true);
        assert_eq!(decanonicalize_path(&canonical, bits), shortened);
    }
    assert_eq!(decanonicalize_path("a/b/c", 0), "a/b/c");
    assert_eq!(decanonicalize_path("a/b/c", 2), r"a/b\c");
}

#[test]
fn only_irregular_paths_need_canonicalization() {
    let needs = |path: &str, windows: bool| {
        path_needs_canonicalization(&path.chars().collect::<Vec<_>>(), windows)
    };
    assert!(!needs("a/b.c/..d/.e", false));
    assert!(!needs("/a", true));
    assert!(!needs("a\\b", false));
    assert!(needs("a\\b", true));
    assert!(needs("a/", false));
    assert!(needs("a//b", false));
    assert!(needs("./a", false));
    assert!(needs("a/..", false));
    assert!(needs("a/./b", false));
}

#[test]
fn owned_paths_are_canonicalized_too() {
    assert_eq!(canonicalize_owned_path("x/../y".to_owned()), "y");
}

#[test]
fn a_prefix_may_be_made_canonical() {
    for (a, b) in [("x/../y", "z"), ("./a//b", "../c"), ("..", "../q"), ("/", ".."), ("a/", "./b/")] {
        let whole = canonicalize_path(&format!("{a}/{b}"));
        let parts = canonicalize_path(&format!("{}/{b}", canonicalize_path(a)));
        assert_eq!(whole, parts, "{a} {b}");
    }
}

#[test]
fn canonical_paths_are_no_longer_than_paths() {
    for path in ["", ".", "./", "/", "//", "a/", "a//b/../c", "../..", "é/./é", "./.", r".\a\.."] {
        for windows in [false, true] {
            let canonical = canonicalize_owned_path_with_bits(path.to_owned(), windows).0;
            assert!(canonical.len() <= path.len(), "{path:?}");
            assert_eq!(canonical.is_empty(), path.is_empty(), "{path:?}");
        }
    }
}
