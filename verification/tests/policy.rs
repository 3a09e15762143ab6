use knight_build::policy::color_policy;
use knight_build::policy::guess_parallelism;
use knight_build::policy::smart_terminal_policy;
use knight_build::policy::status_needs_prediction;
use knight_build::policy::truthy;

#[test]
fn default_parallelism_matches_ninja() {
    assert_eq!(guess_parallelism(0), 2);
    assert_eq!(guess_parallelism(1), 2);
    assert_eq!(guess_parallelism(2), 3);
    assert_eq!(guess_parallelism(8), 10);
}

#[test]
fn color_policy_matches_ninja_environment_precedence() {
    assert!(color_policy(true, false, false, false, false));
    assert!(!color_policy(true, true, false, false, false));
    assert!(!color_policy(true, false, true, true, false));
    assert!(color_policy(false, false, false, true, false));
    assert!(color_policy(false, true, true, false, true));
}

#[test]
fn smart_terminal_policy_matches_ninja_platform_split() {
    assert!(!smart_terminal_policy(false, true, false, false));
    assert!(!smart_terminal_policy(true, false, false, false));
    assert!(smart_terminal_policy(true, true, false, false));
    assert!(!smart_terminal_policy(true, true, true, false));
    assert!(smart_terminal_policy(true, false, false, true));
    assert!(!smart_terminal_policy(true, true, true, true));
}

#[test]
fn status_prediction_history_is_loaded_only_when_referenced() {
    assert!(!status_needs_prediction("[%f/%t] ", false));
    assert!(!status_needs_prediction("%%P %p", false));
    assert!(status_needs_prediction("%P %E %W", false));
    assert!(!status_needs_prediction("$progress", true));
    assert!(status_needs_prediction("$predicted_progress", true));
    assert!(status_needs_prediction("$eta_seconds", true));
}

#[test]
fn only_nothing_and_zero_switch_off() {
    assert!(!truthy(""));
    assert!(!truthy("0"));
    assert!(truthy("1"));
    assert!(truthy("00"));
    assert!(truthy("no"));
}

#[test]
fn parallelism_saturates() {
    assert_eq!(guess_parallelism(usize::MAX), usize::MAX);
    assert_eq!(guess_parallelism(3), 5);
}
