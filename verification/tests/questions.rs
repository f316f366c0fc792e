use mixengine::cli::{
    agreed, agreed_question, agreed_to_install, agreed_to_reset, answered, asked_to_grant,
    grant_asked, grant_question, granted, install_question, reset_question, still_waiting_line,
    version_questions, walk_target, GrantStep, Mismatch, MismatchAnswer, VersionAnswer,
    VersionReply, VersionStep,
};

fn step(subject: Option<&str>, versions: Option<(&str, &str)>) -> VersionStep {
    VersionStep {
        subject: subject.map(|s| s.to_owned()),
        mismatch: versions.map(|(installed, wanted)| Mismatch {
            installed: installed.to_owned(),
            wanted: wanted.to_owned(),
        }),
    }
}

fn plan() -> Vec<VersionStep> {
    vec![
        step(Some("php"), Some(("8.2.10", "8.3"))),
        step(None, Some(("1", "2"))),
        step(Some("mysql@8.4"), None),
        step(Some("mysql@8.4"), Some(("8.0.36", "8.4"))),
    ]
}

#[test]
fn a_flag_answers_every_question_and_nobody_is_asked() {
    assert!(version_questions(&plan(), true, false, false).is_empty());
    let answers = answered(&plan(), true, false, false, &Vec::new()).unwrap().unwrap();
    assert_eq!(
        answers,
        vec![
            VersionAnswer { step: 0, answer: MismatchAnswer::Install },
            VersionAnswer { step: 3, answer: MismatchAnswer::Install },
        ]
    );
    let answers = answered(&plan(), false, true, true, &Vec::new()).unwrap().unwrap();
    assert_eq!(answers[1], VersionAnswer { step: 3, answer: MismatchAnswer::UseInstalled });
}

#[test]
fn each_question_names_both_versions() {
    assert_eq!(
        version_questions(&plan(), false, false, false),
        vec![
            "php 8.3 is not installed. [i]nstall it, [u]se the installed 8.2.10, or [c]ancel? "
                .to_owned(),
            "mysql@8.4 8.4 is not installed. [i]nstall it, [u]se the installed 8.0.36, or \
             [c]ancel? "
                .to_owned(),
        ]
    );
}

#[test]
fn replies_answer_the_questions_in_order() {
    let replies = vec![Some(VersionReply::UseInstalled), Some(VersionReply::Install)];
    let answers = answered(&plan(), false, false, false, &replies).unwrap().unwrap();
    assert_eq!(
        answers,
        vec![
            VersionAnswer { step: 0, answer: MismatchAnswer::UseInstalled },
            VersionAnswer { step: 3, answer: MismatchAnswer::Install },
        ]
    );
}

#[test]
fn a_cancel_applies_nothing_and_a_missing_reply_is_refused() {
    let replies = vec![Some(VersionReply::Install), Some(VersionReply::Cancel)];
    assert!(matches!(answered(&plan(), false, false, false, &replies), Ok(None)));
    let replies = vec![Some(VersionReply::Install)];
    let e = answered(&plan(), false, false, false, &replies).unwrap_err();
    assert_eq!(
        e.message,
        "this blueprint asks for a version this machine does not have, and nothing answered the \
         question"
    );
    assert!(answered(&plan(), false, false, true, &Vec::new()).is_err());
}

#[test]
fn a_plan_with_no_question_needs_no_reply_even_under_json() {
    let steps = vec![step(None, Some(("1", "2"))), step(Some("php"), None)];
    assert_eq!(answered(&steps, false, false, true, &Vec::new()).unwrap(), Some(Vec::new()));
}

#[test]
fn install_and_reset_and_continue_questions() {
    assert_eq!(install_question("hello 1.0"), "hello 1.0\ninstall it? [y/N] ");
    assert!(agreed_to_install(true, Some(true)).is_err());
    assert!(matches!(agreed_to_install(false, Some(false)), Ok(false)));
    assert_eq!(
        reset_question("postgres@16"),
        "\npostgres@16 and everything that depends on it will be stopped, and its superuser \
         password rewritten inside its data directory.\nEvery database in it is kept.\n\nre-set \
         the credential? [y/N] "
    );
    assert!(matches!(agreed_to_reset(Some(true)), Ok(true)));
    assert!(agreed_to_reset(None).is_err());
    assert_eq!(agreed_question("rotate it", 0, "ignored"), "rotate it\n\ncontinue? [y/N] ");
    assert_eq!(
        agreed_question("rotate it", 2, "hosts\nfirewall"),
        "rotate it\n\nthis machine is also holding these, and one prompt covers them \
         all:\nhosts\nfirewall\n\ncontinue? [y/N] "
    );
    assert!(agreed(true, Some(true)).is_err());
    assert!(matches!(agreed(false, Some(true)), Ok(true)));
}

#[test]
fn the_queued_prompt_is_spent_on_a_grant_or_a_typed_yes() {
    assert_eq!(granted(0, true, false, Some(true)), GrantStep::NothingWaiting);
    assert_eq!(granted(2, true, true, None), GrantStep::Grant);
    assert_eq!(granted(2, false, true, Some(true)), GrantStep::LeftWaiting);
    assert_eq!(granted(2, false, false, Some(true)), GrantStep::Grant);
    assert_eq!(granted(2, false, false, None), GrantStep::LeftWaiting);
    assert!(grant_asked(2, false, false));
    assert!(!grant_asked(2, true, false));
    assert!(!asked_to_grant(None));
    assert_eq!(still_waiting_line(2), "2 still waiting; `mix elevation grant` writes them");
    assert_eq!(grant_question("hosts"), "hosts\ngrant now? [y/N] ");
}

#[test]
fn a_walk_waits_unless_told_not_to() {
    let t = walk_target(Some("mysql@8.4".to_owned()), false);
    assert_eq!(t.service.as_deref(), Some("mysql@8.4"));
    assert!(t.project.is_none());
    assert!(t.wait);
    assert!(!walk_target(None, true).wait);
}
