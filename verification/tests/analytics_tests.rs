use grit_state::analytics::{
    args_after_last, flag_value_is_true, AnalyticsEventName, ErroredEvent, InvokedEvent,
};

#[test]
fn event_labels_match_their_wire_names() {
    assert_eq!(AnalyticsEventName::Invoked.label(), "command-invoked");
    assert_eq!(AnalyticsEventName::Completed.label(), "command-completed");
    assert_eq!(AnalyticsEventName::Errored.label(), "command-errored");
}

#[test]
fn errored_event_records_the_runtime() {
    let e = ErroredEvent::from_elapsed(1234);
    assert_eq!(e.runtime, 1234);
}

#[test]
fn invoked_event_carries_the_command() {
    let e = InvokedEvent { cmd: "apply".to_string() };
    assert_eq!(e.cmd, "apply");
}

#[test]
fn args_after_the_last_command_name_are_reported() {
    let args: Vec<String> =
        ["grit", "apply", "pattern", "path"].iter().map(|s| s.to_string()).collect();
    let out = args_after_last(args, &"apply".to_string());
    assert_eq!(out, vec!["pattern".to_string(), "path".to_string()]);
}

#[test]
fn args_without_the_command_name_are_kept_whole() {
    let args: Vec<String> = ["pattern", "path"].iter().map(|s| s.to_string()).collect();
    let out = args_after_last(args.clone(), &"apply".to_string());
    assert_eq!(out, args);
}

#[test]
fn args_after_a_repeated_command_name_start_at_the_last_occurrence() {
    let args: Vec<String> = ["apply", "x", "apply", "y"].iter().map(|s| s.to_string()).collect();
    let out = args_after_last(args, &"apply".to_string());
    assert_eq!(out, vec!["y".to_string()]);
}

#[test]
fn only_the_word_true_sets_an_environment_flag() {
    assert!(flag_value_is_true("true"));
    assert!(!flag_value_is_true("false"));
    assert!(!flag_value_is_true("1"));
    assert!(!flag_value_is_true("TRUE"));
    assert!(!flag_value_is_true(""));
}
