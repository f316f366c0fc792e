use mixengine::inventory::{Removal, ResidueId, ResolverMethod, TrustStoreMethod};
use mixengine::location::{Location, Part, PartKind};
use mixengine::machine::{
    audit_log, audit_log_path, autostart_entry, browser_trust, firewall_rules, helper_row,
    hosts_block, path_entry, port_access, resolver_wiring, trust_store, AutostartReport,
    BrowserReading, Database, PathPlace, PathReport, PortAccessMethod, PortReading,
    ResolverReading, TrustReading,
};

#[test]
fn an_empty_hosts_block_is_absent_and_a_full_one_is_counted() {
    let empty = hosts_block("/etc/hosts", &Ok(0), "clear the block");
    assert_eq!(empty.id, ResidueId::HostsBlock);
    assert!(matches!(empty.outcome, Removal::Absent));
    assert_eq!(empty.location, "/etc/hosts");

    let full = hosts_block("/etc/hosts", &Ok(3), "clear the block");
    let Removal::Planned { how } = &full.outcome else {
        panic!("{full:?}")
    };
    assert_eq!(how, "clear the block, which today holds 3 name(s)");

    let unread = hosts_block("/etc/hosts", &Err("denied".to_owned()), "clear the block");
    let Removal::Failed { because } = &unread.outcome else {
        panic!("{unread:?}")
    };
    assert_eq!(
        because,
        "this machine's hosts file could not be read, so what is in it is unknown: denied"
    );
}

#[test]
fn the_resolver_is_planned_only_when_something_is_routed() {
    let quiet = resolver_wiring(&ResolverReading::NotListening);
    assert!(matches!(quiet.outcome, Removal::Absent));
    assert!(quiet.location.starts_with("no DNS server"));

    let wired = resolver_wiring(&ResolverReading::Read {
        method: ResolverMethod::SystemdLink,
        wired: true,
        revoke: Some("revoke the routing".to_owned()),
    });
    assert_eq!(
        wired.location,
        "this machine's systemd-networkd link configuration"
    );
    assert!(matches!(wired.outcome, Removal::Planned { ref how } if how == "revoke the routing"));

    let unwired = resolver_wiring(&ResolverReading::Read {
        method: ResolverMethod::Nrpt,
        wired: false,
        revoke: Some("revoke the routing".to_owned()),
    });
    assert!(matches!(unwired.outcome, Removal::Absent));

    let nothing_to_name = resolver_wiring(&ResolverReading::Read {
        method: ResolverMethod::NoMechanism,
        wired: true,
        revoke: None,
    });
    assert!(matches!(nothing_to_name.outcome, Removal::Absent));

    let unread = resolver_wiring(&ResolverReading::Unreadable("gone".to_owned()));
    assert!(matches!(unread.outcome, Removal::Failed { .. }));
    assert_eq!(unread.location, "this machine's resolver configuration");
}

#[test]
fn the_port_permission_names_where_it_lives() {
    let none = port_access(&PortReading::NoFrontEnd);
    assert!(matches!(none.outcome, Removal::Absent));

    let capability = port_access(&PortReading::Read {
        binary: "/h/bin/caddy".to_owned(),
        method: PortAccessMethod::Capability,
        granted: true,
        revoke: Some("take the capability".to_owned()),
    });
    assert_eq!(capability.location, "/h/bin/caddy");
    assert!(matches!(capability.outcome, Removal::Planned { .. }));

    let redirect = port_access(&PortReading::Read {
        binary: "/h/bin/caddy".to_owned(),
        method: PortAccessMethod::Redirect,
        granted: false,
        revoke: Some("take the redirect".to_owned()),
    });
    assert!(redirect.location.contains("/etc/pf.conf"));
    assert!(matches!(redirect.outcome, Removal::Absent));

    let direct = port_access(&PortReading::Read {
        binary: "x".to_owned(),
        method: PortAccessMethod::Direct,
        granted: true,
        revoke: None,
    });
    assert!(direct.location.starts_with("this system reserves no port"));
    assert!(matches!(direct.outcome, Removal::Absent));

    let unread = port_access(&PortReading::Unreadable {
        binary: "/h/bin/caddy".to_owned(),
        error: "denied".to_owned(),
    });
    assert_eq!(unread.location, "/h/bin/caddy");
    assert!(matches!(unread.outcome, Removal::Failed { .. }));
}

#[test]
fn the_firewall_row_is_read_from_the_sites() {
    let shared = firewall_rules(&Ok(vec![false, true]), "apply no ports");
    assert_eq!(shared.location, "MixEngine — shared sites");
    assert!(matches!(shared.outcome, Removal::Planned { ref how } if how == "apply no ports"));
    assert!(matches!(
        firewall_rules(&Ok(vec![false]), "x").outcome,
        Removal::Absent
    ));
    assert!(matches!(firewall_rules(&Ok(vec![]), "x").outcome, Removal::Absent));
    assert!(matches!(
        firewall_rules(&Err("locked".to_owned()), "x").outcome,
        Removal::Failed { .. }
    ));
}

#[test]
fn the_trust_store_row_follows_what_was_read() {
    let none = trust_store("/h/certs", &TrustReading::NoAuthority);
    assert_eq!(none.location, "/h/certs");
    assert!(matches!(none.outcome, Removal::Absent));
    let held = trust_store(
        "/h/certs",
        &TrustReading::Read {
            method: TrustStoreMethod::SystemKeychain,
            installed: true,
            remove: Some("remove the authority".to_owned()),
        },
    );
    assert_eq!(held.location, "this machine's System keychain");
    assert!(matches!(held.outcome, Removal::Planned { .. }));
    let unread = trust_store("/h/certs", &TrustReading::Unreadable("no".to_owned()));
    assert!(matches!(unread.outcome, Removal::Failed { .. }));
}

#[test]
fn the_browser_row_names_the_databases_that_hold_the_authority() {
    let reached = browser_trust(&BrowserReading::Reached(vec![
        Database {
            path: "/p/one".to_owned(),
            owner: "Firefox".to_owned(),
            installed: true,
        },
        Database {
            path: "/p/two".to_owned(),
            owner: "Chrome".to_owned(),
            installed: false,
        },
        Database {
            path: "/p/three".to_owned(),
            owner: "Firefox".to_owned(),
            installed: true,
        },
    ]));
    assert_eq!(reached.location, "/p/one (Firefox), /p/three (Firefox)");
    let Removal::Planned { how } = &reached.outcome else {
        panic!("{reached:?}")
    };
    assert_eq!(
        how,
        "take MixEngine's authority out of 2 browser database(s), which needs no administrator"
    );

    let none = browser_trust(&BrowserReading::Reached(vec![]));
    assert_eq!(none.location, "no browser database was found on this machine");
    let not_holding = browser_trust(&BrowserReading::Reached(vec![Database {
        path: "/p".to_owned(),
        owner: "o".to_owned(),
        installed: false,
    }]));
    assert_eq!(not_holding.location, "no browser database on this machine holds it");
    let no_tool = browser_trust(&BrowserReading::NoTool("certutil is missing".to_owned()));
    assert_eq!(no_tool.location, "certutil is missing");
    assert!(matches!(no_tool.outcome, Removal::Absent));
    let failed = browser_trust(&BrowserReading::Unfinished("cancelled".to_owned()));
    assert!(matches!(failed.outcome, Removal::Failed { ref because } if because.ends_with("cancelled")));
    assert!(matches!(
        browser_trust(&BrowserReading::NoAuthority).outcome,
        Removal::Absent
    ));
}

#[test]
fn a_helper_a_package_placed_is_kept_and_names_the_package() {
    let row = helper_row(
        Some("/usr/local/libexec/mixengine/mixengine-elevate"),
        true,
        Some("mixengine".to_owned()),
        "remove the helper",
    );

    assert_eq!(row.id, ResidueId::PrivilegedHelper);
    let Removal::Kept { because } = &row.outcome else {
        panic!("{row:?}")
    };
    assert_eq!(
        because,
        "it came with the mixengine package, and removing that package removes it"
    );
}

#[test]
fn a_helper_no_package_claims_is_planned_and_an_absent_one_is_absent() {
    let path = "/usr/local/libexec/mixengine/mixengine-elevate";

    assert!(matches!(
        helper_row(Some(path), true, None, "remove the helper").outcome,
        Removal::Planned { .. }
    ));
    assert!(matches!(
        helper_row(Some(path), false, Some("mixengine".to_owned()), "x").outcome,
        Removal::Absent
    ));
    assert!(matches!(helper_row(None, false, None, "x").outcome, Removal::Absent));
}

#[test]
fn the_audit_log_is_beside_the_directory_it_is_in() {
    let mut directory = Location::empty();
    directory.push(Part::new(PartKind::Root, "/"));
    directory.push(Part::name("var"));
    directory.push(Part::name("log"));
    assert_eq!(audit_log_path(&directory).display('/'), "/var/log/elevate.log");

    let there = audit_log(Some("/var/log/elevate.log"), true, "remove the log");
    assert!(matches!(there.outcome, Removal::Planned { .. }));
    assert!(matches!(
        audit_log(Some("/var/log/elevate.log"), false, "x").outcome,
        Removal::Absent
    ));
    assert!(audit_log(None, true, "x").location.contains("will not name a directory"));
}

#[test]
fn only_this_homes_login_entry_is_planned() {
    let ours = autostart_entry(&Ok(AutostartReport {
        location: "~/.config/systemd/user/mixengine.service".to_owned(),
        enabled: true,
        for_this_home: true,
    }));
    assert!(matches!(ours.outcome, Removal::Planned { .. }));
    let theirs = autostart_entry(&Ok(AutostartReport {
        location: "x".to_owned(),
        enabled: true,
        for_this_home: false,
    }));
    assert!(matches!(theirs.outcome, Removal::Absent));
    let unread = autostart_entry(&Err("no".to_owned()));
    assert_eq!(unread.location, "this machine's login configuration");
}

#[test]
fn the_path_row_names_the_places_that_carry_the_commands() {
    let carried = path_entry(&Ok(PathReport {
        directory: "/h/bin".to_owned(),
        places: vec![
            PathPlace {
                name: "~/.profile".to_owned(),
                present: true,
            },
            PathPlace {
                name: "~/.zshrc".to_owned(),
                present: false,
            },
            PathPlace {
                name: "~/.bashrc".to_owned(),
                present: true,
            },
        ],
    }));
    assert_eq!(carried.location, "~/.profile, ~/.bashrc");
    let Removal::Planned { how } = &carried.outcome else {
        panic!("{carried:?}")
    };
    assert_eq!(
        how,
        "take /h/bin off your PATH in 2 place(s), which needs no administrator"
    );

    let nowhere = path_entry(&Ok(PathReport {
        directory: "/h/bin".to_owned(),
        places: vec![],
    }));
    assert_eq!(nowhere.location, "/h/bin");
    assert!(matches!(nowhere.outcome, Removal::Absent));
    assert!(matches!(
        path_entry(&Err("no".to_owned())).outcome,
        Removal::Failed { .. }
    ));
}
