use knight_build::status::expand_status_placeholders;
use knight_build::status::expand_status_variables;
use knight_build::status::format_clock;
use knight_build::status::format_status;
use knight_build::status::percentage;
use knight_build::status::Snapshot;

fn snapshot() -> Snapshot {
    Snapshot {
        started: 2,
        finished: 1,
        running: 1,
        total: 4,
        predicted_progress: 25,
        rate: "0.5".to_owned(),
        current_rate: "?".to_owned(),
        elapsed_seconds: "2.000".to_owned(),
        eta_seconds: "6.000".to_owned(),
        elapsed: format_clock(2, false),
        eta: format_clock(6, false),
        description: "compile".to_owned(),
    }
}

/// A snapshot of a build that nothing is known of, after some milliseconds.
fn snapshot_at(
    started: usize,
    finished: usize,
    running: usize,
    total: usize,
    description: &str,
    elapsed_ms: u64,
) -> Snapshot {
    let seconds = elapsed_ms as f64 / 1000.0;
    let progress = finished as f64 / total.max(1) as f64;
    let eta = if progress > 0.0 {
        Some(seconds / progress - seconds)
    } else {
        None
    };
    Snapshot {
        started,
        finished,
        running,
        total,
        predicted_progress: (100.0 * progress) as usize,
        rate: if finished == 0 || elapsed_ms == 0 {
            "?".to_owned()
        } else {
            format!("{:.1}", finished as f64 / seconds)
        },
        current_rate: "?".to_owned(),
        elapsed_seconds: format!("{seconds:.3}"),
        eta_seconds: eta.map_or("?".to_owned(), |eta| format!("{eta:.3}")),
        elapsed: format_clock(seconds as u64, false),
        eta: eta.map_or("?".to_owned(), |eta| format_clock(eta as u64, false)),
        description: description.to_owned(),
    }
}

#[test]
fn expands_all_ninja_status_placeholders() {
    let rendered = format_status(
        "[%% %s/%t %f %r %u %p %o %c %e %w %E %W %P] ",
        false,
        &snapshot_at(2, 1, 1, 4, "compile", 2_000),
    )
    .unwrap();
    assert_eq!(
        rendered,
        "[% 2/4 1 1 2  25% 0.5 ? 2.000 00:02 6.000 00:06  25%] compile"
    );
}

#[test]
fn expands_status_variables_without_implicit_description() {
    let snapshot = snapshot_at(1, 1, 0, 1, "compile", 1_000);
    let rendered = format_status(
        "$finished/$total $$ $: $ description=$description",
        true,
        &snapshot,
    )
    .unwrap();
    assert_eq!(rendered, "1/1 $ :  description=compile");

    let rendered = format_status("$finished", true, &snapshot).unwrap();
    assert_eq!(rendered, "1");
}

#[test]
fn rejects_unknown_status_tokens() {
    let snapshot = snapshot_at(1, 1, 0, 1, "", 0);
    assert!(format_status("%x", false, &snapshot)
        .unwrap_err()
        .contains("unknown placeholder"));
    assert!(format_status("$mystery", true, &snapshot)
        .unwrap_err()
        .contains("unknown variable"));
}

#[test]
fn placeholders_stand_for_what_they_name() {
    assert_eq!(
        format_status(
            "[%% %s/%t %f %r %u %p %o %c %e %w %E %W %P] ",
            false,
            &snapshot()
        )
        .unwrap(),
        "[% 2/4 1 1 2  25% 0.5 ? 2.000 00:02 6.000 00:06  25%] compile"
    );
    assert_eq!(
        expand_status_placeholders("%x", &snapshot()),
        Err("unknown placeholder '%x' in NINJA_STATUS".to_owned())
    );
    assert_eq!(
        expand_status_placeholders("50%", &snapshot()),
        Err("unknown placeholder '%' in NINJA_STATUS".to_owned())
    );
}

#[test]
fn variables_stand_for_what_they_name() {
    assert_eq!(
        format_status(
            "$finished/$total $$ $: $ description=$description",
            true,
            &snapshot()
        )
        .unwrap(),
        "1/4 $ :  description=compile"
    );
    assert_eq!(
        expand_status_variables("${started}s $remaining$rate-$progress", &snapshot()).unwrap(),
        "2s 20.5- 25%"
    );
    assert_eq!(
        expand_status_variables(
            "$running $current_rate $elapsed_seconds $eta_seconds $elapsed $eta $predicted_progress",
            &snapshot()
        )
        .unwrap(),
        "1 ? 2.000 6.000 00:02 00:06  25%"
    );
    assert_eq!(
        expand_status_variables("$mystery", &snapshot()),
        Err("unknown variable 'mystery' in --status format".to_owned())
    );
    assert_eq!(
        expand_status_variables("${started", &snapshot()),
        Err("bad $-escape (missing '}')".to_owned())
    );
    for bad in ["$", "$-", "$%"] {
        assert_eq!(
            expand_status_variables(bad, &snapshot()),
            Err("bad $-escape (literal $ must be written as $$)".to_owned())
        );
    }
}

#[test]
fn shares_and_clocks_are_written_out() {
    assert_eq!(percentage(0, 0), 0);
    assert_eq!(percentage(1, 3), 33);
    assert_eq!(percentage(3, 3), 100);
    let mut done = snapshot();
    done.finished = 4;
    done.predicted_progress = 7;
    assert_eq!(expand_status_placeholders("%p%P", &done).unwrap(), "100%  7%");
    assert_eq!(format_clock(61, false), "01:01");
    assert_eq!(format_clock(6000, false), "100:00");
    assert_eq!(format_clock(3725, true), "1:02:05");
}
