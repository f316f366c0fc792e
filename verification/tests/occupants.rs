use std::collections::BTreeMap;

use mixengine::location::{Location, Part, PartKind};
use mixengine::occupants::{descends_from, occupants_among, parents_of, ProcessRow};

fn loc(text: &str) -> Location {
    let mut location = Location::empty();
    location.push(Part::new(PartKind::Root, "/"));
    for name in text.split('/').filter(|name| !name.is_empty()) {
        location.push(Part::name(name));
    }
    location
}

fn process(pid: u32, parent: Option<u32>, executable: Option<&str>) -> ProcessRow {
    ProcessRow {
        pid,
        parent,
        thread: false,
        name: format!("p{pid}"),
        executable: executable.map(loc),
        comparable: executable.map(loc),
    }
}

#[test]
fn the_ancestry_walk_stops_on_a_loop() {
    let parents = BTreeMap::from([(1, 2), (2, 1)]);

    assert!(!descends_from(1, 99, &parents));
    assert!(descends_from(1, 2, &parents));
}

#[test]
fn a_process_descends_from_itself_and_its_parents() {
    let parents = BTreeMap::from([(3, 2), (2, 1), (1, 1)]);
    assert!(descends_from(3, 3, &parents));
    assert!(descends_from(3, 1, &parents));
    assert!(!descends_from(1, 3, &parents));
    assert!(!descends_from(4, 1, &BTreeMap::new()));
}

#[test]
fn a_program_running_from_the_directory_is_found() {
    let rows = vec![
        process(10, Some(1), Some("/home/user/mix/runtimes/php")),
        process(11, Some(1), Some("/usr/bin/bash")),
    ];
    let found = occupants_among(&rows, &[loc("/home/user/mix")], None);
    assert_eq!(found.len(), 1, "{found:?}");
    assert_eq!(found[0].pid, 10);
    assert_eq!(found[0].name, "p10");
}

#[test]
fn a_program_running_from_elsewhere_is_not() {
    let rows = vec![process(11, Some(1), Some("/elsewhere/sleep"))];
    assert!(occupants_among(&rows, &[loc("/home/user/mix")], None).is_empty());
    assert!(occupants_among(&rows, &[], None).is_empty());
}

#[test]
fn a_descendant_of_the_spared_pid_is_not() {
    let rows = vec![
        process(100, Some(1), Some("/other/mixengined")),
        process(101, Some(100), Some("/home/mix/bin/caddy")),
        process(102, Some(101), Some("/home/mix/bin/php")),
        process(200, Some(1), Some("/home/mix/bin/php")),
    ];
    let found = occupants_among(&rows, &[loc("/home/mix")], Some(100));
    let pids: Vec<u32> = found.iter().map(|o| o.pid).collect();
    assert_eq!(pids, vec![200]);
}

#[test]
fn the_occupants_come_in_pid_order_and_threads_are_not_processes() {
    let mut thread = process(5, Some(1), Some("/home/mix/bin/x"));
    thread.thread = true;
    let rows = vec![
        process(30, Some(1), Some("/home/mix/bin/b")),
        thread,
        process(7, Some(1), Some("/home/mix/bin/a")),
        process(9, Some(1), None),
    ];
    let found = occupants_among(&rows, &[loc("/home/mix")], None);
    let pids: Vec<u32> = found.iter().map(|o| o.pid).collect();
    assert_eq!(pids, vec![7, 30]);
}

#[test]
fn the_parent_table_is_read_from_the_rows() {
    let parents = parents_of(&[process(2, Some(1), None), process(3, None, None)]);
    assert_eq!(parents.get(&2), Some(&1));
    assert_eq!(parents.get(&3), None);
}

use mixengine::occupants::{held_paths, held_under, Armed, HeldPath, OpenHandle};

fn armed(path: &str) -> Armed {
    Armed {
        path: loc(path),
        comparable: loc(&path.to_lowercase()),
    }
}

fn open(pid: u32, path: &str) -> OpenHandle {
    OpenHandle {
        pid,
        path: loc(path),
    }
}

fn shown(location: &Location) -> String {
    location.display('/')
}

#[test]
fn a_held_item_is_spelled_under_the_callers_directory() {
    let groups = held_paths(
        &vec![
            open(8, "/HOME/data/file"),
            open(3, "/home/bin"),
            open(8, "/home/data/file"),
            open(5, "/home"),
            open(6, "/elsewhere/x"),
        ],
        &[armed("/Home")],
    );
    let seen: Vec<(String, Vec<u32>)> = groups
        .iter()
        .map(|g| (shown(&g.path), g.pids.clone()))
        .collect();
    assert_eq!(
        seen,
        vec![
            ("/Home/bin".to_owned(), vec![3]),
            ("/Home/data/file".to_owned(), vec![8, 8]),
        ]
    );
}

#[test]
fn a_handle_on_the_directory_itself_in_another_case_is_not_an_item() {
    let groups = held_paths(&vec![open(5, "/HOME"), open(6, "/Home/"), open(7, "/hOmE/x")], &[armed("/Home")]);
    let seen: Vec<String> = groups.iter().map(|g| shown(&g.path)).collect();
    assert_eq!(seen, vec!["/Home/x".to_owned()]);
}

#[test]
fn a_sibling_with_the_same_prefix_is_not_inside() {
    let groups = held_paths(&vec![open(4, "/home-dev/a")], &[armed("/home")]);
    assert!(groups.is_empty());
}

#[test]
fn the_spared_process_and_its_children_hold_nothing() {
    let rows = vec![
        process(100, Some(1), None),
        process(101, Some(100), None),
        process(7, Some(1), None),
    ];
    let held = vec![
        HeldPath {
            path: loc("/home/data/file"),
            pids: vec![101, 100],
        },
        HeldPath {
            path: loc("/home/logs"),
            pids: vec![7, 101, 7],
        },
    ];
    let items = held_under(held, &vec![Some(true), Some(false)], &rows, Some(100));
    assert_eq!(items.len(), 1);
    assert_eq!(shown(&items[0].path), "/home/logs");
    assert!(!items[0].movable);
    let holders: Vec<(u32, String)> = items[0]
        .holders
        .iter()
        .map(|h| (h.pid, h.name.clone()))
        .collect();
    assert_eq!(holders, vec![(7, "p7".to_owned())]);
}

#[test]
fn a_holder_the_process_table_has_lost_is_named_by_its_pid() {
    let held = vec![
        HeldPath {
            path: loc("/home/a"),
            pids: vec![42, 9],
        },
        HeldPath {
            path: loc("/home/gone"),
            pids: vec![9],
        },
    ];
    let items = held_under(held, &vec![Some(true), None], &vec![process(9, None, None)], None);
    assert_eq!(items.len(), 1);
    let holders: Vec<(u32, String)> = items[0]
        .holders
        .iter()
        .map(|h| (h.pid, h.name.clone()))
        .collect();
    assert_eq!(holders, vec![(9, "p9".to_owned()), (42, "pid 42".to_owned())]);
}

#[test]
fn a_file_held_sharing_delete_is_movable_and_one_held_without_is_stuck() {
    let held = vec![
        HeldPath {
            path: loc("/home/data"),
            pids: vec![7],
        },
        HeldPath {
            path: loc("/home/data/file"),
            pids: vec![8],
        },
    ];
    let rows = vec![process(7, None, None), process(8, None, None)];
    let items = held_under(held, &vec![Some(true), Some(false)], &rows, None);
    assert_eq!(items.len(), 2);
    assert!(items[0].movable);
    assert!(!items[1].movable);
}

#[test]
fn the_armed_directory_itself_is_not_a_held_item() {
    let groups = held_paths(&vec![open(5, "/home")], &[armed("/home")]);
    assert!(groups.is_empty());
}

#[test]
fn nothing_is_held_in_a_directory_nobody_opened() {
    assert!(held_paths(&vec![], &[armed("/home")]).is_empty());
    assert!(held_under(vec![], &vec![], &vec![], None).is_empty());
}

#[test]
fn a_long_chain_of_parents_is_walked_to_its_end() {
    let parents: BTreeMap<u32, u32> = (1..50u32).map(|p| (p + 1, p)).collect();
    assert!(descends_from(50, 1, &parents));
    assert!(!descends_from(1, 50, &parents));
}
