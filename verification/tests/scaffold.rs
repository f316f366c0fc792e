use mixengine::cli::{
    agreed_to_scaffold, scaffold_asked, scaffold_question, unasked_line, ErrorCode,
    ScaffoldConsent, SignatureCheck,
};

fn plan() -> Vec<Option<String>> {
    vec![None, Some("npm create vite@latest .".to_owned()), Some("later".to_owned())]
}

#[test]
fn no_command_needs_no_consent() {
    let steps: Vec<Option<String>> = vec![None, None];
    let (r, line) = agreed_to_scaffold(&steps, false, "acme/site", true, true, false, Some(true));
    assert!(matches!(r, Ok(None)));
    assert_eq!(line, None);
    assert!(!scaffold_asked(&steps, false, false, false, false));
}

#[test]
fn the_flag_for_its_kind_agrees_to_the_first_command() {
    let (r, line) = agreed_to_scaffold(&plan(), true, "acme/site", true, false, false, None);
    assert_eq!(
        r.ok().flatten(),
        Some(ScaffoldConsent {
            command: "npm create vite@latest .".to_owned(),
            untrusted: false,
        })
    );
    assert_eq!(line, None);

    let (r, _) = agreed_to_scaffold(&plan(), false, "acme/site", false, true, false, None);
    assert_eq!(
        r.ok().flatten(),
        Some(ScaffoldConsent {
            command: "npm create vite@latest .".to_owned(),
            untrusted: true,
        })
    );
}

#[test]
fn the_flag_for_the_other_kind_is_refused() {
    let (r, line) = agreed_to_scaffold(&plan(), false, "acme/site", true, false, false, Some(true));
    let e = r.unwrap_err();
    assert_eq!(e.code, ErrorCode::InvalidArgument);
    assert_eq!(
        e.message,
        "nothing vouches for acme/site, so `--run-scaffold` does not answer for it"
    );
    assert_eq!(e.hint.as_deref(), Some("`--run-untrusted-scaffold` runs it anyway"));
    assert_eq!(line, None);

    let (r, _) = agreed_to_scaffold(&plan(), true, "acme/site", false, true, false, Some(true));
    let e = r.unwrap_err();
    assert_eq!(
        e.message,
        "acme/site is signed, so `--run-untrusted-scaffold` does not answer for it"
    );
    assert_eq!(e.hint.as_deref(), Some("`--run-scaffold` runs it"));
}

#[test]
fn nobody_to_ask_leaves_the_command_unrun_with_a_line() {
    let (r, line) = agreed_to_scaffold(&plan(), false, "acme/site", false, false, true, Some(true));
    assert!(matches!(r, Ok(None)));
    assert_eq!(
        line.as_deref(),
        Some(
            "mix: `npm create vite@latest .` was not run — nothing here could be asked. \
             `--run-untrusted-scaffold` agrees to it."
        )
    );

    let (r, line) = agreed_to_scaffold(&plan(), true, "acme/site", false, false, false, None);
    assert!(matches!(r, Ok(None)));
    assert_eq!(
        line.as_deref(),
        Some(
            "mix: `npm create vite@latest .` was not run — nothing here could be asked. \
             `--run-scaffold` agrees to it."
        )
    );
}

#[test]
fn the_answer_decides_when_somebody_was_asked() {
    assert!(scaffold_asked(&plan(), true, false, false, false));
    let (r, line) = agreed_to_scaffold(&plan(), true, "acme/site", false, false, false, Some(false));
    assert!(matches!(r, Ok(None)));
    assert_eq!(line, None);
    let (r, _) = agreed_to_scaffold(&plan(), true, "acme/site", false, false, false, Some(true));
    assert_eq!(
        r.ok().flatten(),
        Some(ScaffoldConsent {
            command: "npm create vite@latest .".to_owned(),
            untrusted: false,
        })
    );
}

#[test]
fn the_question_prints_the_command_as_it_will_run() {
    assert_eq!(
        scaffold_question("make it", true, Some(SignatureCheck::Rejected)),
        "A signature came with this blueprint and it is not the gallery's. It wants to run, in \
         the new project's directory:\n\n    make it\n\nRun it? [y/N] "
    );
    assert_eq!(
        unasked_line("x", false),
        "mix: `x` was not run — nothing here could be asked. `--run-scaffold` agrees to it."
    );
}
