use mixengine::cli::{
    act_query, plan_query, uninstall_asks, uninstall_ending, uninstall_step, ErrorCode, UninstallAct, UninstallFlags,
    BLOCKED,
};
use mixengine::cli::{daemon_still_up, here, left_behind_step, waits_for_the_daemon, LeftStep};
use mixengine::inventory::{Removal, Residue, ResidueId};
use mixengine::location::{Location, Part, PartKind};

fn at(root: bool, names: &[&str]) -> Location {
    let mut l = Location::empty();
    if root {
        l.push(Part::new(PartKind::Root, "/"));
    }
    for n in names {
        l.push(Part::name(n));
    }
    l
}

fn flags() -> UninstallFlags {
    UninstallFlags {
        keep_home: false,
        keep_relocated: false,
        dry_run: false,
        yes: false,
        json: false,
        relocated: false,
        blocked: false,
    }
}

fn home(outcome: Removal) -> Vec<Residue> {
    vec![Residue {
        id: ResidueId::Home,
        what: "the home".to_owned(),
        location: "/t/home".to_owned(),
        outcome,
    }]
}

fn planned() -> Vec<Residue> {
    home(Removal::Planned { how: "remove it".to_owned() })
}

fn stuck() -> Vec<Residue> {
    home(Removal::Blocked { by: "pwsh.exe (pid 7)".to_owned() })
}

#[test]
fn a_listing_is_all_a_listing_asks_for() {
    let f = UninstallFlags { relocated: true, blocked: true, ..flags() };
    assert!(matches!(uninstall_step(f, &stuck(), None), UninstallAct::ListRelocated));
    let f = UninstallFlags { blocked: true, ..flags() };
    assert!(matches!(uninstall_step(f, &stuck(), None), UninstallAct::ListBlocked));
    assert!(!uninstall_asks(f, &planned()));
}

#[test]
fn a_program_in_the_way_exits_with_blocked_after_the_plan() {
    let r = uninstall_step(flags(), &stuck(), Some(true));
    assert!(matches!(r, UninstallAct::Finish { show_plan: true, code } if code == BLOCKED));
    assert!(!uninstall_asks(flags(), &stuck()));
}

#[test]
fn a_dry_run_prints_the_plan_even_under_json_and_removes_nothing() {
    let f = UninstallFlags { dry_run: true, json: true, ..flags() };
    assert!(matches!(
        uninstall_step(f, &planned(), None),
        UninstallAct::Finish { show_plan: true, code: 0 }
    ));
}

#[test]
fn yes_removes_without_asking_and_json_prints_no_plan() {
    let f = UninstallFlags { yes: true, json: true, ..flags() };
    assert!(!uninstall_asks(f, &planned()));
    assert!(matches!(
        uninstall_step(f, &planned(), None),
        UninstallAct::Remove { show_plan: false }
    ));
}

#[test]
fn an_unattended_uninstall_without_yes_is_refused() {
    let f = UninstallFlags { json: true, ..flags() };
    match uninstall_step(f, &planned(), Some(true)) {
        UninstallAct::Refuse { show_plan, error } => {
            assert!(!show_plan);
            assert_eq!(error.code, ErrorCode::InvalidArgument);
        }
        other => panic!("{other:?}"),
    }
    assert!(matches!(
        uninstall_step(flags(), &planned(), None),
        UninstallAct::Refuse { show_plan: true, .. }
    ));
}

#[test]
fn the_answer_decides_and_no_is_not_a_failure() {
    assert!(uninstall_asks(flags(), &planned()));
    assert!(matches!(
        uninstall_step(flags(), &planned(), Some(true)),
        UninstallAct::Remove { show_plan: true }
    ));
    assert!(matches!(
        uninstall_step(flags(), &planned(), Some(false)),
        UninstallAct::Finish { show_plan: true, code: 0 }
    ));
}

#[test]
fn a_clean_ending_prints_the_note_and_succeeds() {
    let end = uninstall_ending(false, &Vec::new(), Some(42), true, true);
    assert_eq!(end.note_from, Some(42));
    assert!(end.lines.is_empty());
    assert!(!end.failed);
}

#[test]
fn a_daemon_still_running_is_still_there_and_a_failure() {
    let end = uninstall_ending(false, &vec!["/t/home".to_owned()], Some(42), true, false);
    assert_eq!(end.note_from, None);
    assert_eq!(
        end.lines,
        vec![
            "still there: /t/home".to_owned(),
            "still there: the daemon (pid 42) is still running".to_owned(),
        ]
    );
    assert!(end.failed);
    let end = uninstall_ending(true, &Vec::new(), None, false, false);
    assert!(end.failed);
    assert_eq!(end.note_from, None);
}

#[test]
fn a_relocated_listing_asks_for_a_plan_without_holders_and_never_for_the_act() {
    let f = UninstallFlags { relocated: true, dry_run: true, keep_home: true, ..flags() };
    let q = plan_query(f);
    assert!(q.skip_holders && !q.grant && q.keep_home && !q.keep_relocated);
    let act = uninstall_step(f, &planned(), Some(true));
    assert!(act_query(f, &act).is_none());
}

#[test]
fn the_act_raises_the_permission_and_reads_the_holders() {
    let f = UninstallFlags { yes: true, keep_relocated: true, ..flags() };
    assert!(!plan_query(f).skip_holders);
    let act = uninstall_step(f, &planned(), None);
    let q = act_query(f, &act).unwrap();
    assert!(q.grant && !q.skip_holders && q.keep_relocated && !q.keep_home);
    let refused = uninstall_step(UninstallFlags { json: true, ..flags() }, &planned(), None);
    assert!(act_query(flags(), &refused).is_none());
}

#[test]
fn the_wait_for_the_daemons_paths_answers_when_nothing_is_left_or_the_time_is_up() {
    assert!(!waits_for_the_daemon(0, false));
    assert!(waits_for_the_daemon(0, true));
    assert_eq!(
        daemon_still_up(0, true, false).as_deref(),
        Some("this home's daemon is still running after a finished uninstall")
    );
    assert_eq!(
        daemon_still_up(2, false, false).as_deref(),
        Some("this home's daemon is still running, so nothing of its own has been removed")
    );
    assert_eq!(daemon_still_up(2, true, true), None);
    assert_eq!(left_behind_step(true, false, 0, 0), LeftStep::Answer);
    assert_eq!(left_behind_step(false, true, 0, 0), LeftStep::Answer);
    assert_eq!(left_behind_step(false, false, 59_900, 0), LeftStep::Answer);
    assert_eq!(left_behind_step(false, false, 59_899, 0), LeftStep::Wait { say_still: false });
    assert_eq!(left_behind_step(false, false, 20_000, 10_000), LeftStep::Wait { say_still: true });
}

#[test]
fn a_relative_directory_is_found_under_the_working_directory() {
    let cwd = at(true, &["work"]);
    let r = here(Some(at(false, &["site"])), false, Ok(cwd)).unwrap();
    assert_eq!(r.display('/'), "/work/site");
    let r = here(Some(at(true, &["abs"])), true, Err("gone".to_owned())).unwrap();
    assert_eq!(r.display('/'), "/abs");
    let e = here(None, false, Err("gone".to_owned())).unwrap_err();
    assert_eq!(e.code, ErrorCode::Io);
    assert_eq!(e.message, "this process has no working directory: gone");
    let mut windows = Location::empty();
    windows.push(Part::new(PartKind::Prefix, "C:"));
    windows.push(Part::new(PartKind::Root, "\\"));
    windows.push(Part::name("w"));
    let r = here(Some(at(true, &["x"])), false, Ok(windows)).unwrap();
    assert_eq!(r.display('\\'), "C:/x");
}
