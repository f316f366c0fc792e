use mixengine::daemon::{armed_lines, leftover_line, lift_movable, note_text, refusal_line};
use mixengine::location::{Location, Part, PartKind};
use mixengine::occupants::{HeldItem, Holder};
use mixengine::tombstone::{
    armed_step, rename_again, ArmedStep, RenameError,
    is_tombstone, lifted_tombstone_for, note_name, planned_moves_for, tombstone_for,
    tombstones_among, Held, Leftover, Refused, Sweep, SweepAction, SweepEvent, PATIENCE, QUICK,
};

fn loc(text: &str) -> Location {
    let mut location = Location::empty();
    location.push(Part::new(PartKind::Root, "/"));
    for name in text.split('/').filter(|name| !name.is_empty()) {
        location.push(Part::name(name));
    }
    location
}

fn shown(location: &Location) -> String {
    location.display('/')
}

#[test]
fn a_tombstone_is_named_after_the_directory_and_the_pid() {
    assert_eq!(shown(&tombstone_for(&loc("/t/MixEngine"), 7)), "/t/MixEngine.removing-7");
    assert!(is_tombstone(&tombstone_for(&loc("/t/MixEngine"), 7)));
    assert!(!is_tombstone(&loc("/t/MixEngine")));
    assert!(!is_tombstone(&Location::empty()));
}

#[test]
fn two_lifted_items_with_one_name_do_not_collide() {
    let home = loc("/t/home");
    let a = lifted_tombstone_for(&loc("/t/home/a/logs"), &home, 7, 0);
    let b = lifted_tombstone_for(&loc("/t/home/b/logs"), &home, 7, 1);
    assert_eq!(shown(&a), "/t/home.removing-7-0-logs");
    assert_eq!(shown(&b), "/t/home.removing-7-1-logs");
    assert!(is_tombstone(&a));
}

#[test]
fn nested_lifts_leave_deepest_first() {
    let moves = planned_moves_for(
        &[loc("/t/home"), loc("/t/other")],
        &[loc("/t/home/logs"), loc("/t/home/logs/file"), loc("/t/elsewhere/x")],
        7,
    );
    let pairs: Vec<(String, String)> = moves
        .iter()
        .map(|m| (shown(&m.from), shown(&m.to)))
        .collect();
    assert_eq!(
        pairs,
        vec![
            ("/t/home/logs/file".to_owned(), "/t/home.removing-7-0-file".to_owned()),
            ("/t/home/logs".to_owned(), "/t/home.removing-7-1-logs".to_owned()),
            ("/t/home".to_owned(), "/t/home.removing-7".to_owned()),
            ("/t/other".to_owned(), "/t/other.removing-7".to_owned()),
        ]
    );
}

/// Drive a sweep with what the disk would answer: `there` says which paths exist, and `refuses`
/// which renames are refused.
fn run(moves: Vec<mixengine::tombstone::Move>, there: &[&str], refuses: &[&str]) -> (Vec<String>, bool) {
    let mut sweep = Sweep::new(moves);
    let mut done = Vec::new();
    let mut action = sweep.action();
    assert!(!sweep.is_over() || matches!(action, SweepAction::Finished { .. }));
    loop {
        let event = match &action {
            SweepAction::Look(path) => {
                if there.contains(&shown(path).as_str()) {
                    SweepEvent::There
                } else {
                    SweepEvent::NotThere
                }
            }
            SweepAction::Rename { from, to } => {
                if refuses.contains(&shown(from).as_str()) {
                    done.push(format!("refused {}", shown(from)));
                    SweepEvent::Refused
                } else {
                    done.push(format!("rename {} {}", shown(from), shown(to)));
                    SweepEvent::Renamed
                }
            }
            SweepAction::PutBack { from, to } => {
                done.push(format!("put back {} {}", shown(from), shown(to)));
                SweepEvent::PutBack
            }
            SweepAction::Delete(path) => {
                done.push(format!("delete {}", shown(path)));
                SweepEvent::Deleted
            }
            SweepAction::Finished { refused } => {
                assert!(sweep.is_over());
                return (done, *refused);
            }
        };
        action = sweep.step(event);
    }
}

#[test]
fn every_directory_goes_when_nothing_is_in_the_way() {
    let moves = planned_moves_for(&[loc("/t/a"), loc("/t/b")], &[], 7);
    let (done, refused) = run(moves, &["/t/a", "/t/b"], &[]);
    assert!(!refused);
    assert_eq!(
        done,
        vec![
            "rename /t/a /t/a.removing-7",
            "rename /t/b /t/b.removing-7",
            "delete /t/a.removing-7",
            "delete /t/b.removing-7",
        ]
    );
}

#[test]
fn one_refusal_puts_every_directory_back() {
    let moves = planned_moves_for(&[loc("/t/a"), loc("/t/b")], &[], 7);
    let (done, refused) = run(moves, &["/t/a", "/t/b"], &["/t/b"]);
    assert!(refused);
    assert_eq!(
        done,
        vec![
            "rename /t/a /t/a.removing-7",
            "refused /t/b",
            "put back /t/a.removing-7 /t/a",
        ]
    );
}

#[test]
fn a_refusal_after_two_renames_puts_both_back_latest_first() {
    let moves = planned_moves_for(&[loc("/t/a"), loc("/t/b"), loc("/t/c")], &[], 7);
    let (done, refused) = run(moves, &["/t/a", "/t/b", "/t/c"], &["/t/c"]);
    assert!(refused);
    assert_eq!(
        done,
        vec![
            "rename /t/a /t/a.removing-7",
            "rename /t/b /t/b.removing-7",
            "refused /t/c",
            "put back /t/b.removing-7 /t/b",
            "put back /t/a.removing-7 /t/a",
        ]
    );
}

#[test]
fn a_missing_directory_is_not_a_refusal() {
    let moves = planned_moves_for(&[loc("/t/gone"), loc("/t/fine")], &[], 7);
    let (done, refused) = run(moves, &["/t/fine"], &[]);
    assert!(!refused);
    assert_eq!(
        done,
        vec!["rename /t/fine /t/fine.removing-7", "delete /t/fine.removing-7"]
    );
}

#[test]
fn an_old_tombstone_is_found_and_removed() {
    let moves = planned_moves_for(&[loc("/t/MixEngine.removing-3")], &[], 7);
    let (done, refused) = run(moves, &["/t/MixEngine.removing-3"], &[]);
    assert!(!refused);
    assert_eq!(done, vec!["delete /t/MixEngine.removing-3"]);
}

#[test]
fn a_lifted_directory_is_put_back_on_a_refusal() {
    let moves = planned_moves_for(&[loc("/t/home"), loc("/t/other")], &[loc("/t/home/bin")], 7);
    let (done, refused) = run(moves, &["/t/home", "/t/home/bin", "/t/other"], &["/t/other"]);
    assert!(refused);
    assert_eq!(
        done,
        vec![
            "rename /t/home/bin /t/home.removing-7-0-bin",
            "rename /t/home /t/home.removing-7",
            "refused /t/other",
            "put back /t/home.removing-7 /t/home",
            "put back /t/home.removing-7-0-bin /t/home/bin",
        ]
    );
}

#[test]
fn an_old_tombstone_is_found_beside_the_directory() {
    let names = vec![
        "MixEngine.removing-9".to_owned(),
        "MixEngine".to_owned(),
        "Other.removing-3".to_owned(),
        "MixEngine.removing-3".to_owned(),
    ];
    let found: Vec<String> = tombstones_among(&loc("/t/MixEngine"), &names)
        .iter()
        .map(shown)
        .collect();
    assert_eq!(
        found,
        vec!["/t/MixEngine.removing-3", "/t/MixEngine.removing-9"]
    );
    assert!(tombstones_among(&Location::empty(), &names).is_empty());
}

#[test]
fn the_note_is_named_by_the_pid() {
    assert_eq!(note_name(4242), "mixengined-4242.uninstall");
    assert!(QUICK < PATIENCE);
}

fn item(path: &str, movable: bool, holders: &[(u32, &str)]) -> HeldItem {
    HeldItem {
        path: loc(path),
        movable,
        holders: holders
            .iter()
            .map(|(pid, name)| Holder {
                pid: *pid,
                name: (*name).to_owned(),
            })
            .collect(),
    }
}

#[test]
fn what_can_be_moved_is_lifted_and_the_rest_is_named() {
    let (lifted, stuck) = lift_movable(
        vec![loc("/t/home/bin")],
        vec![
            item("/t/home/data", true, &[(5, "code")]),
            item("/t/home/logs/x.log", false, &[(6, "tail")]),
            item("/t/home/etc", true, &[]),
        ],
    );
    let lifted: Vec<String> = lifted.iter().map(shown).collect();
    assert_eq!(lifted, vec!["/t/home/bin", "/t/home/data", "/t/home/etc"]);
    assert_eq!(stuck.len(), 1);
    assert_eq!(shown(&stuck[0].path), "/t/home/logs/x.log");
}

#[test]
fn a_leftover_says_the_next_uninstall_removes_it() {
    let line = leftover_line(
        &Leftover {
            path: loc("/t/home.removing-7"),
            error: "Directory not empty".to_owned(),
        },
        '/',
    );
    assert_eq!(
        line,
        "mixengined: /t/home.removing-7 could not be removed (Directory not empty). the next uninstall removes it"
    );
}

fn refused(held: Option<Held>) -> Refused {
    Refused {
        path: loc("/t/home"),
        error: "Access is denied. (os error 5)".to_owned(),
        held,
        tried_for: 10_400,
    }
}

#[test]
fn a_refusal_names_the_program_the_handle_table_found_first() {
    let stuck = vec![
        item("/t/home/a", false, &[]),
        item("/t/home/logs/x.log", false, &[(6, "tail"), (9, "less")]),
    ];
    assert_eq!(
        refusal_line(&refused(None), &stuck, '/'),
        "mixengined: nothing was removed, tail (6), less (9) holds /t/home/logs/x.log open, so it cannot be moved or deleted (tried for 10 s). close it, then run the uninstall again"
    );
}

#[test]
fn a_refusal_falls_back_to_what_was_found_inside() {
    let named = refused(Some(Held {
        path: loc("/t/home/data/db"),
        by: vec!["mysqld (77)".to_owned()],
    }));
    assert_eq!(
        refusal_line(&named, &vec![], '/'),
        "mixengined: nothing was removed, mysqld (77) holds /t/home/data/db open (tried for 10 s). close it, then run the uninstall again"
    );

    let unnamed = refused(Some(Held {
        path: loc("/t/home/data"),
        by: vec![],
    }));
    assert_eq!(
        refusal_line(&unnamed, &vec![], '/'),
        "mixengined: nothing was removed, another program has /t/home/data open, such as File Explorer or a terminal (tried for 10 s). close it, then run the uninstall again"
    );

    assert_eq!(
        refusal_line(&refused(None), &vec![], '/'),
        "mixengined: nothing was removed, /t/home could not be moved aside: Access is denied. (os error 5) (tried for 10 s). close any program using it, then run the uninstall again"
    );
}

#[test]
fn the_note_holds_one_line_per_leftover_or_one_for_a_refusal() {
    let left: Result<Vec<Leftover>, Refused> = Ok(vec![
        Leftover {
            path: loc("/t/a.removing-7"),
            error: "busy".to_owned(),
        },
        Leftover {
            path: loc("/t/b.removing-7"),
            error: "busy".to_owned(),
        },
    ]);
    let lines = armed_lines(&left, &vec![], '/');
    assert_eq!(lines.len(), 2);
    assert_eq!(
        note_text(&lines),
        format!("{}\n{}\n", lines[0], lines[1])
    );
    assert!(armed_lines(&Ok(vec![]), &vec![], '/').is_empty());
    let one = armed_lines(&Err(refused(None)), &vec![], '/');
    assert_eq!(one.len(), 1);
}

use mixengine::tombstone::{HeldSearch, Look, LOOKED_AT_MOST};

#[test]
fn a_held_file_is_named_in_preference_to_a_directory() {
    let mut search = HeldSearch::new(&loc("/t/home"), false);
    assert_eq!(search.look(&loc("/t/home/etc"), true, true), Look::Descend);
    assert_eq!(search.look(&loc("/t/home/free.txt"), false, false), Look::Pass);
    assert_eq!(search.look(&loc("/t/home/etc/held.log"), false, true), Look::Name);
    let held = search.finish().expect("a held directory");
    assert_eq!(shown(&held), "/t/home/etc");
}

#[test]
fn a_held_directory_is_named_when_no_file_is() {
    let mut search = HeldSearch::new(&loc("/t/home"), true);
    assert_eq!(search.look(&loc("/t/home/etc"), true, true), Look::Descend);
    assert_eq!(shown(&search.finish().unwrap()), "/t/home");

    let search = HeldSearch::new(&loc("/t/home"), false);
    assert!(search.finish().is_none());
}

#[test]
fn the_search_gives_up_after_looking_at_enough() {
    let mut search = HeldSearch::new(&loc("/t/home"), false);
    for _ in 0..LOOKED_AT_MOST {
        assert_eq!(search.look(&loc("/t/home/f"), false, false), Look::Pass);
    }
    assert_eq!(search.look(&loc("/t/home/held"), false, true), Look::GiveUp);
    assert_eq!(search.look(&loc("/t/home/d"), true, true), Look::GiveUp);
    assert!(search.finish().is_none());
}

#[test]
fn nested_lifts_leave_deepest_first_and_come_back() {
    let moves = planned_moves_for(
        &[loc("/t/home"), loc("/t/other")],
        &[loc("/t/home/logs"), loc("/t/home/logs/file")],
        7,
    );
    let (done, refused) = run(
        moves,
        &["/t/home", "/t/home/logs", "/t/home/logs/file", "/t/other"],
        &["/t/other"],
    );
    assert!(refused);
    assert_eq!(
        done,
        vec![
            "rename /t/home/logs/file /t/home.removing-7-0-file",
            "rename /t/home/logs /t/home.removing-7-1-logs",
            "rename /t/home /t/home.removing-7",
            "refused /t/other",
            "put back /t/home.removing-7 /t/home",
            "put back /t/home.removing-7-1-logs /t/home/logs",
            "put back /t/home.removing-7-0-file /t/home/logs/file",
        ]
    );
}

#[test]
fn nested_lifts_all_go_when_nothing_refuses() {
    let moves = planned_moves_for(&[loc("/t/home")], &[loc("/t/home/logs"), loc("/t/home/logs/file")], 7);
    let (done, refused) = run(moves, &["/t/home", "/t/home/logs", "/t/home/logs/file"], &[]);
    assert!(!refused);
    assert_eq!(
        done[3..].to_vec(),
        vec![
            "delete /t/home.removing-7-0-file",
            "delete /t/home.removing-7-1-logs",
            "delete /t/home.removing-7",
        ]
    );
}

#[test]
fn a_lifted_file_is_deleted() {
    let moves = planned_moves_for(&[loc("/t/home")], &[loc("/t/home/file")], 7);
    let (done, refused) = run(moves, &["/t/home", "/t/home/file"], &[]);
    assert!(!refused);
    assert!(done.contains(&"delete /t/home.removing-7-0-file".to_owned()), "{done:?}");
}

#[test]
fn a_lifted_item_inside_nothing_armed_stays_where_it_is() {
    let moves = planned_moves_for(&[loc("/t/home")], &[loc("/t/elsewhere/file")], 7);
    assert_eq!(moves.len(), 1);
    assert_eq!(shown(&moves[0].from), "/t/home");
}

#[test]
fn nothing_is_held_in_a_directory_nobody_has_open() {
    let mut search = HeldSearch::new(&loc("/t/home"), false);
    assert_eq!(search.look(&loc("/t/home/free.txt"), false, false), Look::Pass);
    assert_eq!(search.look(&loc("/t/home/etc"), true, false), Look::Descend);
    assert!(search.finish().is_none());
}

#[test]
fn the_order_of_lifted_items_does_not_change_the_plan() {
    let paths = [loc("/t/home"), loc("/t/other")];
    let one = planned_moves_for(&paths, &[loc("/t/home/logs"), loc("/t/home/logs/a/b")], 7);
    let two = planned_moves_for(&paths, &[loc("/t/home/logs/a/b"), loc("/t/home/logs")], 7);
    let shown_moves = |moves: &Vec<mixengine::tombstone::Move>| -> Vec<(String, String)> {
        moves.iter().map(|m| (shown(&m.from), shown(&m.to))).collect()
    };
    assert_eq!(shown_moves(&one), shown_moves(&two));
    assert_eq!(shown(&one[0].from), "/t/home/logs/a/b");
}

#[test]
fn each_daemon_leaves_its_note_under_a_name_of_its_own() {
    assert_eq!(note_name(42), "mixengined-42.uninstall");
    assert_ne!(note_name(42), note_name(420));
    assert_ne!(note_name(4), note_name(42));
}

#[test]
fn only_a_refusal_waiting_can_change_is_tried_again_within_the_patience() {
    use_rename_again();
}

fn use_rename_again() {
    use_it(RenameError::PermissionDenied, 0, 2000, true);
    use_it(RenameError::SharingViolation, 1900, 2000, true);
    use_it(RenameError::SharingViolation, 1901, 2000, false);
    use_it(RenameError::Other, 0, 2000, false);
    use_it(RenameError::PermissionDenied, 0, 50, false);
}

fn use_it(error: RenameError, waited: u64, patience: u64, expected: bool) {
    assert_eq!(rename_again(error, waited, patience), expected, "{error:?} {waited} {patience}");
}

#[test]
fn the_armed_directories_get_a_quick_try_then_one_patient_one() {
    assert_eq!(armed_step(0, false), ArmedStep::Try { patience: QUICK, lift_movable: false });
    assert_eq!(armed_step(1, true), ArmedStep::Try { patience: PATIENCE, lift_movable: true });
    assert_eq!(armed_step(1, false), ArmedStep::Done);
    assert_eq!(armed_step(2, true), ArmedStep::Done);
}
