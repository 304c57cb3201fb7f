use lore::sync::{ago, is_rejected_push, is_stale, needs_push, nothing_to_publish, GitError, Report};

#[test]
fn the_summary_says_what_moved() {
    assert_eq!(Report::default().summary(), "Already up to date");

    let report = Report { received: 1, sent: 2, kept_both: vec![("a".to_string(), "a-2".to_string())] };
    let summary = report.summary();
    assert!(summary.contains("1 change from other machines, 2 changes from this one"), "{summary}");
    assert!(summary.contains("now a-2"), "{summary}");
}

#[test]
fn a_rejected_push_is_recognised_and_nothing_else_is() {
    let rejected = GitError {
        what: "push".to_string(),
        message: "! [rejected] HEAD -> main (fetch first)".to_string(),
    };
    assert!(is_rejected_push(&rejected));

    let unreachable = GitError { what: "fetch".to_string(), message: "Could not resolve host".to_string() };
    assert!(!is_rejected_push(&unreachable));
}

#[test]
fn a_summary_is_one_line_per_entry_kept_twice() {
    let report = Report {
        received: 2,
        sent: 1,
        kept_both: vec![("a".to_string(), "a-2".to_string()), ("b".to_string(), "b-2".to_string())],
    };
    let summary = report.summary();
    assert_eq!(summary.lines().count(), 3);
    assert!(summary.starts_with("Synced: 2 changes from other machines, 1 change from this one\n"));
}

#[test]
fn ages_are_said_in_the_largest_whole_unit() {
    assert_eq!(ago(0), "just now");
    assert_eq!(ago(59), "just now");
    assert_eq!(ago(60), "1 minute ago");
    assert_eq!(ago(150), "2 minutes ago");
    assert_eq!(ago(3600), "1 hour ago");
    assert_eq!(ago(86400 * 3), "3 days ago");
}

#[test]
fn an_empty_library_with_nothing_synced_is_not_published() {
    assert!(nothing_to_publish(false, "  \n"));
    assert!(!nothing_to_publish(true, ""));
    assert!(!nothing_to_publish(false, "version: 1\n"));
}

#[test]
fn a_push_is_needed_only_for_commits_the_repository_lacks() {
    assert!(!needs_push(None, None));
    assert!(!needs_push(None, Some("abc")));
    assert!(needs_push(Some("abc"), None));
    assert!(needs_push(Some("abc"), Some("def")));
    assert!(!needs_push(Some("abc"), Some("abc")));
}

#[test]
fn a_lock_goes_stale_after_two_minutes() {
    assert!(!is_stale(120_000_000_000));
    assert!(is_stale(120_000_000_001));
    assert!(!is_stale(0));
}
