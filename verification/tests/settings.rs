use mixengine::cli::{idle_after, pin, update_lock_in, update_rollback_lines, ErrorCode, LockAttempt};

#[test]
fn an_idle_policy_is_whole_minutes() {
    assert_eq!(idle_after("30m", Some(30 * 60_000)), Ok(30));
    assert_eq!(idle_after("2h", Some(2 * 3_600_000)), Ok(120));
}

#[test]
fn an_idle_policy_that_is_not_a_duration_is_refused() {
    assert_eq!(
        idle_after("soon", None),
        Err("\"soon\" is not a duration — write it as `30m`, `2h` or `90m`".to_owned())
    );
}

#[test]
fn an_idle_policy_of_zero_points_at_never() {
    assert_eq!(
        idle_after("0m", Some(0)),
        Err("an idle policy of zero would stop the service on the next sweep; `--never` is how \
             you              switch idle stopping off"
            .to_owned())
    );
}

#[test]
fn an_idle_policy_of_part_of_a_minute_is_refused_not_rounded() {
    assert_eq!(
        idle_after("90s", Some(90_000)),
        Err(format!(
            "\"90s\" is not a whole number of minutes, and that is what MixEngine stores — write{}it \
             as minutes or hours",
            " ".repeat(14)
        ))
    );
}

#[test]
fn an_idle_policy_too_long_to_store_is_refused() {
    let millis = (u32::MAX as u64 + 1) * 60_000;
    assert_eq!(
        idle_after("a lot", Some(millis)),
        Err("\"a lot\" is longer than MixEngine can store".to_owned())
    );
    assert_eq!(idle_after("just", Some(u32::MAX as u64 * 60_000)), Ok(u32::MAX));
}

#[test]
fn a_pin_splits_at_the_first_equals() {
    assert_eq!(pin("php=^8.3"), Ok(("php".to_owned(), "^8.3".to_owned())));
    assert_eq!(pin("node=a=b"), Ok(("node".to_owned(), "a=b".to_owned())));
    assert_eq!(pin("php"), Err("`php` is not `<runtime>=<version>`".to_owned()));
}

#[test]
fn another_update_running_is_refused_and_an_unwritable_directory_needs_no_lock() {
    assert!(matches!(update_lock_in(LockAttempt::Held), Ok(true)));
    assert!(matches!(update_lock_in(LockAttempt::NotWritable), Ok(false)));
    let e = update_lock_in(LockAttempt::Taken("pid 42".to_owned())).unwrap_err();
    assert_eq!(e.code, ErrorCode::PreconditionFailed);
    assert_eq!(e.message, "another update is running (pid 42)");
    assert_eq!(
        e.hint.as_deref(),
        Some(
            format!(
                "wait for it to finish, whether it is mix self-update or MixLab; two updates at \
                 once{}would interleave their swaps",
                " ".repeat(14)
            )
            .as_str()
        )
    );
}

#[test]
fn a_failed_update_names_each_file_and_the_move_that_undoes_it() {
    let lines = update_rollback_lines(
        "1.4.0",
        "the daemon did not answer",
        "/opt/mixengine/bin",
        &vec!["mix".to_owned(), "mixengined".to_owned()],
        ".exe",
    );
    assert_eq!(
        lines,
        vec![
            "\nMixEngine 1.4.0 is installed, and the new daemon would not start: the daemon did \
             not answer"
                .to_owned(),
            "the binaries it replaced are still in /opt/mixengine/bin, each under its own name \
             with .old on the end:"
                .to_owned(),
            "  mix.exe.old".to_owned(),
            "  mixengined.exe.old".to_owned(),
            "renaming each of those back over the file beside it puts this machine as it was."
                .to_owned(),
        ]
    );
}
