use mixengine::inventory::{
    completed_row, credential_rows, directory_rows, firewall_label, going, home, in_use, ours,
    planned_window_folders, relocated, resolver_place, running_rows, stuck_rows, tombstone,
    trust_place, window_rows, Folder, Found, Recorded, Removal, ResidueId, Residue,
    ResolverMethod, StoreError, TrustStoreMethod, UninstallQuery, WindowFolders, FIREWALL_LABEL,
};
use mixengine::inventory::{take, MachineRows};
use mixengine::location::{Location, Part, PartKind};
use mixengine::occupants::{HeldItem, Holder, Occupant};

/// A path as components: `C:\a\b` on Windows' spelling, `/a/b` on Unix'.
fn loc(text: &str) -> Location {
    let mut location = Location::empty();
    if let Some(rest) = text.strip_prefix('/') {
        location.push(Part::new(PartKind::Root, "/"));
        for name in rest.split('/').filter(|name| !name.is_empty()) {
            location.push(Part::name(name));
        }
    } else {
        let mut pieces = text.split('\\');
        let prefix = pieces.next().unwrap();
        location.push(Part::new(PartKind::Prefix, prefix));
        location.push(Part::new(PartKind::Root, "\\"));
        for name in pieces.filter(|name| !name.is_empty()) {
            location.push(Part::name(name));
        }
    }
    location
}

fn held(path: &str, movable: bool, holders: &[(u32, &str)]) -> HeldItem {
    HeldItem {
        path: loc(path),
        movable,
        holders: holders
            .iter()
            .map(|(pid, name)| Holder {
                pid: *pid,
                name: (*name).to_owned(),
            })
            .collect(),
    }
}

#[test]
fn every_mechanism_names_a_place_to_look() {
    for method in [
        ResolverMethod::ResolverDirectory,
        ResolverMethod::SystemdLink,
        ResolverMethod::Nrpt,
        ResolverMethod::NoMechanism,
    ] {
        assert!(!resolver_place(method).is_empty());
    }

    for method in [
        TrustStoreMethod::SystemRoot,
        TrustStoreMethod::SystemKeychain,
        TrustStoreMethod::CaCertificates,
        TrustStoreMethod::CaTrustAnchors,
        TrustStoreMethod::NoStore,
    ] {
        assert!(!trust_place(method).is_empty());
    }
}

#[test]
fn the_firewall_label_is_the_one_sharing_writes() {
    assert_eq!(firewall_label(), format!("{FIREWALL_LABEL}shared sites"));
}

#[test]
fn a_movable_item_is_not_a_row() {
    let rows = stuck_rows(&vec![held(r"C:\home\bin", true, &[(1200, "Code.exe")])], &vec![], '\\');
    assert!(rows.is_empty(), "{rows:?}");
}

#[test]
fn a_stuck_item_is_a_blocked_row() {
    let rows = stuck_rows(&vec![held(r"C:\home\data", false, &[(7, "pwsh.exe")])], &vec![], '\\');

    assert_eq!(rows.len(), 1, "{rows:?}");
    assert_eq!(rows[0].id, ResidueId::InUse);
    assert_eq!(rows[0].what, "pwsh.exe (pid 7)");
    assert_eq!(rows[0].location, r"C:\home\data");
    let Removal::Blocked { by } = &rows[0].outcome else {
        panic!("{:?}", rows[0].outcome)
    };
    assert!(
        by.contains(r"has C:\home\data open, so it cannot be moved or deleted"),
        "{by}"
    );
    assert!(by.ends_with("close it and run the uninstall again"), "{by}");
}

#[test]
fn many_stuck_items_of_one_process_are_one_row() {
    let rows = stuck_rows(
        &vec![
            held(r"C:\home\a", false, &[(9, "tool.exe")]),
            held(r"C:\home\b", false, &[(9, "tool.exe")]),
            held(r"C:\home\c", false, &[(9, "tool.exe")]),
        ],
        &vec![],
        '\\',
    );

    assert_eq!(rows.len(), 1, "{rows:?}");
    let Removal::Blocked { by } = &rows[0].outcome else {
        panic!("{:?}", rows[0].outcome)
    };
    assert!(by.contains("(and 2 more)"), "{by}");
    assert_eq!(rows[0].location, r"C:\home\a");
}

#[test]
fn a_process_running_and_stuck_is_one_row() {
    let running = Residue {
        id: ResidueId::InUse,
        what: "php.exe (pid 42)".to_owned(),
        location: r"C:\home\runtimes\php.exe".to_owned(),
        outcome: Removal::Blocked {
            by: "running".to_owned(),
        },
    };

    let rows = stuck_rows(
        &vec![held(r"C:\home\data", false, &[(42, "php.exe")])],
        &vec![running],
        '\\',
    );

    assert!(rows.is_empty(), "{rows:?}");
}

#[test]
fn stuck_rows_come_in_pid_order_and_name_the_first_place() {
    let rows = stuck_rows(
        &vec![
            held(r"C:\home\z", false, &[(30, "late.exe"), (5, "early.exe")]),
            held(r"C:\home\b", false, &[(30, "late.exe")]),
            held(r"C:\home\q", true, &[(5, "early.exe")]),
        ],
        &vec![],
        '\\',
    );
    assert_eq!(rows.len(), 2, "{rows:?}");
    assert_eq!(rows[0].what, "early.exe (pid 5)");
    assert_eq!(rows[0].location, r"C:\home\z");
    assert_eq!(rows[1].what, "late.exe (pid 30)");
    assert_eq!(rows[1].location, r"C:\home\b");
    let Removal::Blocked { by } = &rows[1].outcome else {
        panic!("{:?}", rows[1].outcome)
    };
    assert_eq!(
        by,
        r"late.exe has C:\home\b open, so it cannot be moved or deleted (and 1 more); close it and run the uninstall again"
    );
}

#[test]
fn a_program_running_from_the_home_is_a_blocked_row_before_the_stuck_ones() {
    let occupants = vec![Occupant {
        pid: 42,
        name: "php.exe".to_owned(),
        executable: loc(r"C:\home\runtimes\php.exe"),
    }];
    let running = running_rows(&occupants, '\\');
    assert_eq!(running.len(), 1);
    assert_eq!(running[0].what, "php.exe (pid 42)");
    assert_eq!(running[0].location, r"C:\home\runtimes\php.exe");
    let Removal::Blocked { by } = &running[0].outcome else {
        panic!("{:?}", running[0].outcome)
    };
    assert_eq!(
        by,
        "php.exe is running from a directory this uninstall removes; close it and run the uninstall again"
    );

    let rows = in_use(
        &occupants,
        &vec![
            held(r"C:\home\data", false, &[(42, "php.exe")]),
            held(r"C:\home\logs", false, &[(7, "pwsh.exe")]),
        ],
        '\\',
    );
    assert_eq!(rows.len(), 2, "{rows:?}");
    assert_eq!(rows[0].what, "php.exe (pid 42)");
    assert_eq!(rows[1].what, "pwsh.exe (pid 7)");
}

fn found(daemon: &[&str], window: Option<&[&str]>) -> Found {
    Found {
        home: Some("0123456789ab".to_owned()),
        daemon: Ok(daemon.iter().map(|key| (*key).to_owned()).collect()),
        window: window.map(|keys| Ok(keys.iter().map(|key| (*key).to_owned()).collect())),
    }
}

#[test]
fn only_this_homes_keys_make_the_row() {
    let rows = credential_rows(
        &found(
            &[
                "0123456789ab/mariadb@main/root",
                "ffffffffffff/mariadb@main/root",
                "mariadb@main/root",
            ],
            None,
        ),
        false,
    );

    assert_eq!(rows.len(), 1, "{rows:?}");
    assert_eq!(rows[0].id, ResidueId::Credentials);
    assert!(rows[0].what.starts_with("1 password"), "{rows:?}");
    assert!(matches!(rows[0].outcome, Removal::Planned { .. }));
}

#[test]
fn nothing_stored_is_no_row() {
    assert!(credential_rows(&found(&["ffffffffffff/x/y"], Some(&[][..])), false).is_empty());
}

#[test]
fn a_kept_home_keeps_both_rows() {
    let rows = credential_rows(&found(&["0123456789ab/a/b"], Some(&["vault"][..])), true);

    assert_eq!(
        rows.iter().map(|row| row.id).collect::<Vec<_>>(),
        [ResidueId::Credentials, ResidueId::WindowCredentials]
    );
    assert!(
        rows.iter()
            .all(|row| matches!(row.outcome, Removal::Kept { .. })),
        "{rows:?}"
    );
}

#[test]
fn no_store_at_all_is_no_row() {
    let rows = credential_rows(
        &Found {
            home: Some("0123456789ab".to_owned()),
            daemon: Err(StoreError::Unsupported),
            window: Some(Err(StoreError::Unsupported)),
        },
        false,
    );

    assert!(rows.is_empty(), "{rows:?}");
}

#[test]
fn a_store_that_refused_is_a_failed_row() {
    let rows = credential_rows(
        &Found {
            home: Some("0123456789ab".to_owned()),
            daemon: Err(StoreError::Refused("denied".to_owned())),
            window: None,
        },
        false,
    );

    assert!(
        matches!(
            rows[..],
            [Residue {
                id: ResidueId::Credentials,
                outcome: Removal::Failed { .. },
                ..
            }]
        ),
        "{rows:?}"
    );
}

#[test]
fn a_home_whose_id_is_unknown_cannot_count_its_passwords() {
    let rows = credential_rows(
        &Found {
            home: None,
            daemon: Ok(vec!["0123456789ab/a/b".to_owned()]),
            window: Some(Err(StoreError::Refused("locked".to_owned()))),
        },
        false,
    );
    assert_eq!(rows.len(), 2, "{rows:?}");
    assert_eq!(rows[0].location, "mixengine · this home/…");
    assert!(matches!(rows[0].outcome, Removal::Failed { .. }));
    let Removal::Failed { because } = &rows[1].outcome else {
        panic!("{:?}", rows[1].outcome)
    };
    assert_eq!(because, "the credential store could not be listed: locked");
}

#[test]
fn two_passwords_are_counted_in_the_plural() {
    let rows = credential_rows(&found(&["0123456789ab/a", "0123456789ab/b"], None), false);
    assert_eq!(
        rows[0].what,
        "2 passwords this home's services and databases use"
    );
    assert_eq!(rows[0].location, "mixengine · 0123456789ab/…");
}

#[test]
fn only_keys_under_the_home_are_ours() {
    let keys = vec![
        "abc/x".to_owned(),
        "abcd/y".to_owned(),
        "abc".to_owned(),
        "abc/z".to_owned(),
    ];
    assert_eq!(ours("abc", &keys), vec!["abc/x".to_owned(), "abc/z".to_owned()]);
}

#[test]
fn what_the_install_added_to_itself_is_one_planned_row() {
    let row = completed_row(
        Some("/opt/mixengine"),
        &vec![Recorded {
            name: "mixengine-trampoline".to_owned(),
            there: true,
        }],
    )
    .expect("a row");

    assert_eq!(row.id, ResidueId::CompletedBinary);
    assert!(row.what.contains("mixengine-trampoline"), "{row:?}");
    assert!(matches!(row.outcome, Removal::Planned { .. }), "{row:?}");
}

#[test]
fn no_row_without_a_writable_install_or_without_a_file() {
    let recorded = vec![Recorded {
        name: "mixengine-trampoline".to_owned(),
        there: false,
    }];

    assert!(completed_row(None, &recorded).is_none());
    assert!(completed_row(Some("/opt/mixengine"), &recorded).is_none());
}

#[test]
fn the_present_files_are_listed_together() {
    let row = completed_row(
        Some("/opt/mixengine"),
        &vec![
            Recorded {
                name: "a".to_owned(),
                there: true,
            },
            Recorded {
                name: "b".to_owned(),
                there: false,
            },
            Recorded {
                name: "c".to_owned(),
                there: true,
            },
        ],
    )
    .expect("a row");
    assert_eq!(row.what, "program files this install added to itself: a, c");
    assert_eq!(row.location, "/opt/mixengine");
}

fn query(keep_home: bool, keep_relocated: bool) -> UninstallQuery {
    UninstallQuery {
        keep_home,
        keep_relocated,
        grant: false,
        skip_holders: false,
    }
}

#[test]
fn the_home_and_the_relocated_directories_are_kept_separately() {
    let root = "/tmp/place/MixEngine";
    let moved = vec!["/tmp/place/logs".to_owned()];

    for (keep_home, keep_relocated) in [(false, false), (true, false), (false, true), (true, true)] {
        let rows = directory_rows(root, &moved, &vec![], &vec![], query(keep_home, keep_relocated));
        let kept = |id| {
            rows.iter()
                .find(|row| row.id == id)
                .map(|row| matches!(row.outcome, Removal::Kept { .. }))
                .expect("a row")
        };

        assert_eq!(kept(ResidueId::Home), keep_home, "{rows:?}");
        assert_eq!(kept(ResidueId::RelocatedDirectory), keep_relocated, "{rows:?}");

        let root_location = loc(root);
        let moved_locations = [loc(&moved[0])];
        let going = going(&root_location, &moved_locations, query(keep_home, keep_relocated));
        assert_eq!(going.iter().any(|g| g.same(&root_location)), !keep_home);
        assert_eq!(going.iter().any(|g| g.same(&moved_locations[0])), !keep_relocated);
    }
}

#[test]
fn an_old_tombstone_is_planned_for_removal_whatever_is_kept() {
    let root = "/tmp/place/MixEngine";
    let old = "/tmp/place/MixEngine.removing-1".to_owned();

    let rows = directory_rows(root, &vec![], &vec![old.clone()], &vec![], query(true, true));

    let row = rows
        .iter()
        .find(|row| row.location == old)
        .expect("the tombstone is a row");
    assert_eq!(row.id, ResidueId::Home);
    assert!(matches!(row.outcome, Removal::Planned { .. }), "{row:?}");
}

#[test]
fn the_directory_rows_come_in_order() {
    let rows = directory_rows(
        "/h",
        &vec!["/m1".to_owned(), "/m2".to_owned()],
        &vec!["/h.removing-3".to_owned()],
        &vec!["/m1.removing-3".to_owned()],
        query(false, true),
    );
    let ids: Vec<ResidueId> = rows.iter().map(|row| row.id).collect();
    assert_eq!(
        ids,
        vec![
            ResidueId::Home,
            ResidueId::RelocatedDirectory,
            ResidueId::RelocatedDirectory,
            ResidueId::Home,
            ResidueId::RelocatedDirectory,
        ]
    );
    assert_eq!(rows[4].location, "/m1.removing-3");
    assert!(matches!(rows[4].outcome, Removal::Planned { .. }));
    let tomb = tombstone(ResidueId::Home, "/h.removing-9");
    assert_eq!(
        tomb.what,
        "a directory an earlier uninstall set aside and could not finish removing"
    );
}

#[test]
fn keeping_the_home_says_so_on_the_home_row() {
    let kept = home("/tmp/home", true);

    assert_eq!(kept.id, ResidueId::Home);
    assert!(matches!(kept.outcome, Removal::Kept { .. }), "{kept:?}");
    assert_eq!(kept.location, "/tmp/home");
}

#[test]
fn removing_the_home_says_what_goes_with_it() {
    let planned = home("/tmp/home", false);

    let Removal::Planned { how } = &planned.outcome else {
        panic!("{planned:?}");
    };

    assert!(how.contains("data/"), "{how}");
}

#[test]
fn a_relocated_directory_answers_its_own_choice() {
    assert!(matches!(relocated("/logs", true).outcome, Removal::Kept { .. }));
    assert!(matches!(relocated("/logs", false).outcome, Removal::Planned { .. }));
}

#[test]
fn the_windows_folders_follow_the_home_and_the_cache_always_goes() {
    let data = "/home/u/Roaming/io.github.mixnz.mixlab".to_owned();
    let cache = "/home/u/Local/io.github.mixnz.mixlab".to_owned();
    let missing = "/home/u/Caches/io.github.mixnz.mixlab".to_owned();

    let found = WindowFolders {
        data: vec![Folder {
            location: data.clone(),
            there: true,
        }],
        cache: vec![
            Folder {
                location: cache.clone(),
                there: true,
            },
            Folder {
                location: missing,
                there: false,
            },
        ],
    };

    let removed = window_rows(true, Some(&found), false);
    assert_eq!(
        removed
            .iter()
            .map(|row| (
                row.id,
                row.location.clone(),
                matches!(row.outcome, Removal::Planned { .. })
            ))
            .collect::<Vec<_>>(),
        vec![
            (ResidueId::WindowData, data.clone(), true),
            (ResidueId::WindowCache, cache.clone(), true),
        ],
        "{removed:?}"
    );
    assert_eq!(planned_window_folders(&removed), vec![data, cache]);

    let kept = window_rows(true, Some(&found), true);
    assert!(matches!(kept[0].outcome, Removal::Kept { .. }), "{kept:?}");
    assert!(matches!(kept[1].outcome, Removal::Planned { .. }), "{kept:?}");
    assert_eq!(planned_window_folders(&kept).len(), 1);

    assert!(
        window_rows(false, Some(&found), false).is_empty(),
        "a home the installed window does not use took the window's folders"
    );
    assert!(window_rows(true, None, false).is_empty());
}

#[test]
fn only_directories_outside_the_root_are_relocated() {
    let root = loc("/home/u/MixEngine");
    let directories = [
        loc("/home/u/MixEngine"),
        loc("/home/u/MixEngine/data"),
        loc("/mnt/disk/logs"),
        loc("/home/u/MixEngine-dev/data"),
    ];
    let moved: Vec<String> = mixengine::inventory::moved_out(&root, &directories)
        .iter()
        .map(|d| d.display('/'))
        .collect();
    assert_eq!(
        moved,
        vec!["/mnt/disk/logs".to_owned(), "/home/u/MixEngine-dev/data".to_owned()]
    );
}

fn named(id: ResidueId, what: &str) -> Residue {
    Residue {
        id,
        what: what.to_owned(),
        location: "here".to_owned(),
        outcome: Removal::Absent,
    }
}

fn machine() -> MachineRows {
    MachineRows::new(
        named(ResidueId::HostsBlock, "hosts"),
        named(ResidueId::ResolverWiring, "resolver"),
        named(ResidueId::PortAccess, "ports"),
        named(ResidueId::FirewallRules, "firewall"),
        named(ResidueId::TrustStore, "trust"),
        named(ResidueId::BrowserTrust, "browsers"),
        named(ResidueId::PrivilegedHelper, "helper"),
        named(ResidueId::AuditLog, "audit"),
        named(ResidueId::AutostartEntry, "autostart"),
        named(ResidueId::PathEntry, "path"),
    )
    .expect("every row in its place")
}

#[test]
fn machine_rows_in_the_wrong_place_are_refused() {
    let swapped = MachineRows::new(
        named(ResidueId::ResolverWiring, "resolver"),
        named(ResidueId::HostsBlock, "hosts"),
        named(ResidueId::PortAccess, "ports"),
        named(ResidueId::FirewallRules, "firewall"),
        named(ResidueId::TrustStore, "trust"),
        named(ResidueId::BrowserTrust, "browsers"),
        named(ResidueId::PrivilegedHelper, "helper"),
        named(ResidueId::AuditLog, "audit"),
        named(ResidueId::AutostartEntry, "autostart"),
        named(ResidueId::PathEntry, "path"),
    );
    assert!(swapped.is_none());
}

#[test]
fn the_plan_reads_in_the_order_the_act_works() {
    let window = WindowFolders {
        data: vec![Folder { location: "/w/data".to_owned(), there: true }],
        cache: vec![Folder { location: "/w/cache".to_owned(), there: true }],
    };
    let query = UninstallQuery {
        keep_home: true,
        keep_relocated: false,
        grant: false,
        skip_holders: false,
    };
    let rows = take(
        machine(),
        Some("/opt/mix"),
        &vec![Recorded { name: "mixengine-trampoline".to_owned(), there: true }],
        true,
        Some(&window),
        &found(&["0123456789ab/a/b"], None),
        "/t/home",
        &vec!["/t/logs".to_owned()],
        &Vec::new(),
        &Vec::new(),
        query,
        vec![named(ResidueId::InUse, "occupant")],
    );
    let order: Vec<ResidueId> = rows.iter().map(|r| r.id).collect();
    assert_eq!(
        order,
        vec![
            ResidueId::HostsBlock,
            ResidueId::ResolverWiring,
            ResidueId::PortAccess,
            ResidueId::FirewallRules,
            ResidueId::TrustStore,
            ResidueId::BrowserTrust,
            ResidueId::PrivilegedHelper,
            ResidueId::AuditLog,
            ResidueId::AutostartEntry,
            ResidueId::PathEntry,
            ResidueId::CompletedBinary,
            ResidueId::WindowData,
            ResidueId::WindowCache,
            ResidueId::Credentials,
            ResidueId::Home,
            ResidueId::RelocatedDirectory,
            ResidueId::InUse,
        ]
    );
    assert_eq!(rows[14].location, "/t/home");
    assert!(matches!(rows[14].outcome, Removal::Kept { .. }));
}
