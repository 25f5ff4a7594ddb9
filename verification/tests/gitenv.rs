use hunkpick::gitenv::{c_locale, message_locale_vars, repo_locating_vars, FeedError, LocaleAction};

/// Every variable that points git at another repository is named, so dropping them leaves the
/// working directory as the only thing deciding which repository git acts on.
#[test]
fn repository_variables_are_all_named() {
    let vars = repo_locating_vars();
    assert_eq!(vars.len(), 7);
    for v in ["GIT_DIR", "GIT_WORK_TREE", "GIT_INDEX_FILE", "GIT_CEILING_DIRECTORIES"] {
        assert!(vars.contains(&v), "{v} must be dropped");
    }
}

/// The three variables naming a locale are pinned to C; `LANGUAGE` is dropped.
#[test]
fn message_locale_is_pinned_to_c() {
    assert_eq!(c_locale(), "C");
    let vars = message_locale_vars();
    assert_eq!(
        vars,
        vec![
            ("LC_ALL", LocaleAction::Pin),
            ("LC_MESSAGES", LocaleAction::Pin),
            ("LANG", LocaleAction::Pin),
            ("LANGUAGE", LocaleAction::Drop),
        ]
    );
}

#[test]
fn a_feeding_failure_says_which_step_failed() {
    let e = FeedError::Spawn("No such file or directory (os error 2)".to_string());
    assert_eq!(e.message(), "could not start the process: No such file or directory (os error 2)");
    assert!(e.has_source());
    assert_eq!(FeedError::Write("x".to_string()).message(), "could not write the input: x");
    assert_eq!(FeedError::Wait("y".to_string()).message(), "could not collect the output: y");
    assert_eq!(FeedError::WriterPanicked.message(), "the thread feeding the input panicked");
    assert_eq!(FeedError::ReaderPanicked.message(), "a thread reading the output panicked");
    assert!(!FeedError::WriterPanicked.has_source());
    assert!(!FeedError::ReaderPanicked.has_source());
}
