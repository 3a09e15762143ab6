use knight_build::depfile::parse_depfile;
use knight_build::msvc::filter_msvc_bytes;
use knight_build::msvc::filter_msvc_output;
use knight_build::msvc::normalize_depfile;
use knight_build::msvc::normalize_msvc_include;
use knight_build::relative::include_path;

#[test]
fn filters_msvc_includes_and_compiler_input_echo() {
    let (filtered, includes) = filter_msvc_output(
        "source.c\r\nNote: including file:   include\\local.h\r\nwarning: hello\r\n",
        "Note: including file: ",
    );
    assert_eq!(filtered, "warning: hello\n");
    assert_eq!(includes.len(), 1);
    assert!(normalize_msvc_include(&includes[0], false).ends_with("include/local.h"));
}

#[test]
fn system_includes_and_late_echoes_are_told_apart() {
    let (filtered, includes) = filter_msvc_output(
        "a.CPP\nInc: C:\\Program Files\\x.h\nb.cc\nInc: .\\y\\..\\z.h\nplain",
        "Inc: ",
    );
    assert_eq!(filtered, "b.cc\nplain\n");
    assert_eq!(includes, [".\\y\\..\\z.h"]);
    assert_eq!(normalize_msvc_include(&includes[0], false), "z.h");
}

#[test]
fn output_without_includes_is_kept() {
    let (filtered, includes) = filter_msvc_output("one\ntwo\n", "Note: including file: ");
    assert_eq!(filtered, "one\ntwo\n");
    assert!(includes.is_empty());
}

#[test]
fn depfile_paths_are_made_canonical() {
    let depfile = parse_depfile("./out.o: a/../b.h c.h\n").unwrap();
    let known = normalize_depfile(depfile, false);
    assert_eq!(known.outputs, ["out.o"]);
    assert_eq!(known.inputs, ["b.h", "c.h"]);
}

#[test]
fn lines_with_nothing_behind_the_prefix_are_kept() {
    let (filtered, includes) = filter_msvc_output("Inc: \nInc:   \na.c\nInc: x.h\n", "Inc: ");
    assert_eq!(filtered, "Inc: \nInc:   \n");
    assert_eq!(includes, ["x.h"]);
}

#[test]
fn carriage_returns_end_lines() {
    let (filtered, includes) = filter_msvc_output("one\rInc: x.h\r\n\rtwo\r\r\nthree", "Inc: ");
    assert_eq!(filtered, "one\n\ntwo\n\nthree\n");
    assert_eq!(includes, ["x.h"]);
}

#[test]
fn bytes_that_are_no_text_are_replaced() {
    let (filtered, includes) = filter_msvc_bytes(b"a\xffb\nInc: \xc3\xa9.h\n", "Inc: ");
    assert_eq!(filtered, "a\u{fffd}b\n");
    assert_eq!(includes, ["\u{e9}.h"]);
}

#[test]
fn compiler_output_follows_the_prefix_and_the_first_file() {
    let prefix = "Note: including file: ";
    let (filtered, includes) = filter_msvc_output("foo\r\nNote: including file:  foo.h\r\nbar\r\n", prefix);
    assert_eq!(filtered, "foo\nbar\n");
    assert_eq!(includes, ["foo.h"]);
    let (filtered, includes) = filter_msvc_output("foo.cc\r\ncl: warning\r\n", prefix);
    assert_eq!(filtered, "cl: warning\n");
    assert!(includes.is_empty());
    let (filtered, includes) = filter_msvc_output(
        "foo.cc\r\nNote: including file: foo.h\r\nsomething something foo.cc\r\n",
        prefix,
    );
    assert_eq!(filtered, "something something foo.cc\n");
    assert_eq!(includes, ["foo.h"]);
    let (filtered, includes) = filter_msvc_output(
        "Note: including file: c:\\Program Files\\foo.h\r\nNote: including file: d:\\Microsoft Visual Studio\\bar.h\r\nNote: including file: path.h\r\n",
        prefix,
    );
    assert_eq!(filtered, "");
    assert_eq!(includes, ["path.h"]);
}

#[test]
fn files_are_seen_from_the_current_directory() {
    for (named, current, expected) in [
        ("x.h", "/home/me", "x.h"),
        ("./a//b.h", "/home/me", "a/b.h"),
        ("../x.h", "/home/me", "../x.h"),
        ("/home/me/a/b.h", "/home/me", "a/b.h"),
        ("/home//me/./a/b.h", "/home/me/", "a/b.h"),
        ("/home/mer/b.h", "/home/me", "/home/mer/b.h"),
        ("/usr/x.h", "/home/me", "/usr/x.h"),
        ("/home/me", "/home/me", ""),
    ] {
        assert_eq!(include_path(named, current, false), expected, "{named}");
    }
}

#[test]
fn files_on_a_drive_are_reached_by_leading_up() {
    for (named, current, expected) in [
        ("a\\..\\b", "C:\\work", "b"),
        ("a/.\\b", "C:\\work", "a/b"),
        ("c:\\WORK\\Sub\\x.h", "C:\\work", "Sub/x.h"),
        ("C:/work", "c:\\Work", "."),
        ("..\\x.h", "C:\\work\\sub", "../x.h"),
        ("C:\\other\\x.h", "C:\\work\\sub", "../../other/x.h"),
        ("\\other\\x.h", "C:\\work", "../other/x.h"),
        ("c:x.h", "C:\\work", "x.h"),
        ("..\\..\\..\\x.h", "C:\\work", "../x.h"),
        ("p:\\vs08\\stuff.h", "p:\\vs08", "stuff.h"),
        ("P:\\Vs08\\stuff.h", "p:\\vs08", "stuff.h"),
        ("p:\\vs08\\stuff.h", "c:\\vs08", "p:/vs08/stuff.h"),
        ("\\\\server\\share\\x.h", "c:\\vs08", "//server/share/x.h"),
    ] {
        assert_eq!(include_path(named, current, true), expected, "{named}");
    }
}
