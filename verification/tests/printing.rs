use knight_build::command::exit_code;
use knight_build::command::failed_line;
use knight_build::command::failure_report;
use knight_build::command::rspfile_text;
use knight_build::command::split_command;
use knight_build::elide::elide_middle;
use knight_build::parse_manifest;
use knight_build::prediction::ProgressPrediction;
use knight_build::prediction::RateWindow;
use knight_build::printer::push_text;
use knight_build::printer::Printer;

fn share(prediction: &ProgressPrediction, wall_ms: u64) -> f64 {
    let (done, all) = prediction.completed(wall_ms);
    if all == 0 {
        0.0
    } else {
        done as f64 / all as f64
    }
}

#[test]
fn status_prediction_uses_previous_cpu_times() {
    let mut prediction = ProgressPrediction::new();
    prediction.add_edge(Some(1_000));
    prediction.add_edge(Some(9_000));
    prediction.finish_edge(Some(1_000), 1_000);

    assert!((share(&prediction, 1_000) - 0.1).abs() < f64::EPSILON);
}

#[test]
fn status_prediction_rejects_wildly_stale_history() {
    let mut prediction = ProgressPrediction::new();
    for _ in 0..20 {
        prediction.add_edge(Some(100));
    }
    prediction.finish_edge(Some(100), 16_000);

    assert!((share(&prediction, 16_000) - 0.05).abs() < f64::EPSILON);
    assert!(!prediction.uses_history(16_000));
    assert!(prediction.uses_history(14_999));
}

#[test]
fn unknown_edges_take_the_average() {
    let mut prediction = ProgressPrediction::with_history(&[Some(100), None, Some(300), None]);
    assert_eq!(prediction.total_edges, 4);
    assert_eq!(prediction.predictable_cpu_time_total_ms, 400);
    assert_eq!(prediction.completed(0), (0, 1600));
    prediction.finish_edge(Some(100), 200);
    assert_eq!(prediction.completed(0), (400, 2000));
    prediction.finish_edge(None, u64::MAX);
    assert_eq!(prediction.cpu_time_ms, u64::MAX);
}

#[test]
fn finished_builds_have_nothing_left() {
    let history = [Some(5), None, Some(7)];
    let mut prediction = ProgressPrediction::with_history(&history);
    for previous in history {
        prediction.finish_edge(previous, 11);
    }
    assert_eq!(prediction.finished_edges, 3);
    assert_eq!(prediction.predictable_edges_remaining, 0);
    assert_eq!(prediction.predictable_cpu_time_remaining_ms, 0);
    assert_eq!(prediction.unpredictable_edges_remaining, 0);
    assert_eq!(prediction.completed(60_000), (99, 99));
    assert_eq!(ProgressPrediction::new().completed(0), (0, 0));
}

#[test]
fn removed_edges_leave_no_trace() {
    let mut prediction = ProgressPrediction::with_history(&[Some(5), None]);
    prediction.add_edge(Some(70));
    prediction.remove_edge(Some(70));
    prediction.add_edge(None);
    prediction.remove_edge(None);
    assert_eq!(prediction.total_edges, 2);
    assert_eq!(prediction.predictable_edges_total, 1);
    assert_eq!(prediction.predictable_cpu_time_remaining_ms, 5);
    assert_eq!(prediction.unpredictable_edges_remaining, 1);
    prediction.remove_edge(Some(9));
    assert_eq!(prediction.predictable_cpu_time_total_ms, 0);
}

#[test]
fn the_pace_is_that_of_the_last_edges() {
    let mut window = RateWindow::new(2);
    assert_eq!(window.pace(), None);
    window.note(1, 100);
    assert_eq!(window.pace(), None);
    window.note(1, 150);
    window.note(2, 300);
    assert_eq!(window.pace(), Some((2, 200)));
    window.note(3, 700);
    assert_eq!(window.pace(), Some((2, 400)));
    let mut single = RateWindow::new(0);
    single.note(1, 10);
    single.note(2, 30);
    assert_eq!(single.pace(), None);
}

fn plain(supports_color: bool) -> Printer {
    Printer::new(true, false, false, true, false, supports_color, false)
}

#[test]
fn status_lines_are_written_over_one_another_on_terminals() {
    let mut printer = Printer::new(true, true, true, true, false, true, false);
    assert!(printer.is_smart_terminal());
    assert!(printer.supports_color());
    assert_eq!(printer.print_status(b"[1/2] a", false), b"\r[1/2] a\x1b[K");
    assert_eq!(printer.print_status(b"[2/2] b", false), b"\r[2/2] b\x1b[K");
    assert_eq!(printer.print_on_new_line(b"warning"), b"\nwarning");
    assert_eq!(printer.finish_line(), b"\n");
    assert!(printer.finish_line().is_empty());
    assert_eq!(printer.print_status(b"c", true), b"\rc\n");

    let mut dumb = Printer::new(true, false, true, true, true, false, false);
    assert!(!dumb.is_smart_terminal());
    assert_eq!(dumb.print_status(b"[1/1] a", false), b"[1/1] a\n");
}

#[test]
fn redirected_output_can_be_held_until_the_end() {
    let mut printer = Printer::new(true, true, false, false, false, false, false);
    assert!(printer.print_status(b"[1/1] a", false).is_empty());
    assert!(printer.print_on_new_line(b"text").is_empty());
    assert!(printer.resume().is_empty());
    assert_eq!(printer.finish_line(), b"[1/1] a\ntext\n");
    assert!(printer.finish_line().is_empty());
}

#[test]
fn suspended_output_is_written_on_resume() {
    let mut printer = plain(false);
    printer.suspend();
    assert!(printer.print_status(b"[1/1] a", false).is_empty());
    assert!(printer.write_command_output(b"text\n").is_empty());
    assert_eq!(printer.resume(), b"[1/1] a\ntext\n");
    assert_eq!(printer.print_on_new_line(b"more\n"), b"more\n");
}

#[test]
fn colors_are_left_out_where_they_are_not_wanted() {
    let colored = b"\x1b[31mred\x1b[0m text\n";
    assert_eq!(plain(false).write_command_output(colored), b"red text\n");
    assert_eq!(plain(true).write_command_output(colored), colored);
    assert!(plain(false).write_command_output(b"").is_empty());
}

#[test]
fn lines_end_as_the_system_ends_them() {
    let mut out = b"<".to_vec();
    push_text(&mut out, b"\na\r\nb\n\nc", true);
    assert_eq!(out, b"<\r\na\r\nb\r\n\r\nc");
    let mut again = Vec::new();
    push_text(&mut again, &out, true);
    assert_eq!(again, out);
    let mut posix = Vec::new();
    push_text(&mut posix, b"a\nb\r\n", false);
    assert_eq!(posix, b"a\nb\r\n");
    let mut printer = Printer::new(false, false, false, false, false, true, true);
    assert_eq!(printer.print_status(b"a\nb", true), b"a\r\nb\r\n");
}

#[test]
fn command_lines_name_their_program() {
    let invocation = split_command("  cl.exe /c  a.c ").unwrap();
    assert_eq!(invocation.program, "cl.exe");
    assert_eq!(invocation.arguments, "/c  a.c ");
    let quoted = split_command("\"C:\\Program Files\\cl.exe\" /c a.c").unwrap();
    assert_eq!(quoted.program, "C:\\Program Files\\cl.exe");
    assert_eq!(quoted.arguments, "/c a.c");
    assert_eq!(split_command("cl.exe").unwrap().arguments, "");
    assert_eq!(split_command(" ").err().unwrap(), "empty command");
    assert_eq!(split_command("\"\" x").err().unwrap(), "empty command");
    assert_eq!(
        split_command("\"cl.exe").err().unwrap(),
        "unterminated executable quote"
    );
}

#[test]
fn failures_are_reported() {
    assert_eq!(exit_code(Some(2)), 2);
    assert_eq!(exit_code(Some(0)), 1);
    assert_eq!(exit_code(Some(-5)), 1);
    assert_eq!(exit_code(Some(300)), 255);
    assert_eq!(exit_code(None), 1);
    let manifest =
        parse_manifest("rule r\n  command = r\nbuild a b: r\n", "build.ninja").unwrap();
    assert_eq!(failed_line(3, &manifest.edges[0]), "FAILED: [code=3] a b ");
    let failures = vec!["a failed".to_owned(), "b failed".to_owned()];
    assert_eq!(
        failure_report(true, &failures),
        "build stopped: 2 subcommand(s) failed\na failed\nb failed"
    );
    assert_eq!(
        failure_report(false, &failures[..1].to_vec()),
        "build stopped: cannot make progress due to previous errors\n1 subcommand(s) failed\na failed"
    );
}

#[test]
fn wide_lines_lose_their_middle() {
    let line = b"01234567890123456789";
    for (width, expected) in [
        (4, "...9"),
        (5, "0...9"),
        (6, "0...89"),
        (9, "012...789"),
        (10, "012...6789"),
        (11, "0123...6789"),
        (19, "01234567...23456789"),
        (20, "01234567890123456789"),
    ] {
        assert_eq!(elide_middle(line, width), expected.as_bytes(), "{width}");
    }
    let short = b"Nothing to elide in this short string.";
    for (width, expected) in [(0, ""), (1, "."), (2, ".."), (3, "...")] {
        assert_eq!(elide_middle(short, width), expected.as_bytes());
    }
    assert_eq!(elide_middle(short, 38), short);
    assert_eq!(elide_middle(short, 80), short);
}

#[test]
fn colours_take_no_column_and_stay() {
    let magenta = b"012345\x1B[0;35m67890123456789";
    assert_eq!(elide_middle(magenta, 10), b"012...\x1B[0;35m6789");
    assert_eq!(elide_middle(magenta, 19), b"012345\x1B[0;35m67...23456789");
    assert_eq!(elide_middle(magenta, 20), magenta);
    let many = b"abcd\x1b[1;31mefg\x1b[0mhlkmnopqrstuvwxyz";
    assert_eq!(elide_middle(many, 0), b"\x1b[1;31m\x1b[0m");
    assert_eq!(elide_middle(many, 4), b"...\x1b[1;31m\x1b[0mz");
    assert_eq!(elide_middle(many, 5), b"a...\x1b[1;31m\x1b[0mz");
    assert_eq!(elide_middle(many, 6), b"a...\x1b[1;31m\x1b[0myz");
    assert_eq!(elide_middle(b"a\x1b[2Kbcdefgh", 7), b"a\x1b...gh");
}

#[test]
fn passing_status_lines_are_cut_to_the_terminal() {
    let mut printer = Printer::new(true, false, true, true, false, true, false);
    assert_eq!(
        printer.print_status_in(b"[1/2] abcdefgh", false, Some(9)),
        b"\r[1/...fgh\x1b[K"
    );
    assert_eq!(
        printer.print_status_in(b"[1/2] abcdefgh", false, None),
        b"\r[1/2] abcdefgh\x1b[K"
    );
    assert_eq!(
        printer.print_status_in(b"[1/2] abcdefgh", true, Some(9)),
        b"\r[1/2] abcdefgh\n"
    );
    let mut file = plain(false);
    assert_eq!(
        file.print_status_in(b"[1/2] abcdefgh", false, Some(9)),
        b"[1/2] abcdefgh\n"
    );
}

#[test]
fn response_files_have_the_line_ends_of_the_system() {
    assert_eq!(rspfile_text("a\nb\r\nc", false), "a\nb\r\nc");
    assert_eq!(rspfile_text("a\nb\r\nc\n", true), "a\r\nb\r\r\nc\r\n");
    assert_eq!(rspfile_text("", true), "");
}
