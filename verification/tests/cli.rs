use mixengine::cli::{
    agreed_to_uninstall, blocked_listing, chosen_update, declined_line, finished_uninstall,
    for_seconds, going_locations, has_ended, plain_text, relocated_listing, since_moment_at,
    since_refusal, since_span, unanswerable_question, unanswered, uninstall_question,
    update_question, vouching, Choice, ErrorCode, SignatureCheck, UpdateDecision, BLOCKED,
};
use mixengine::inventory::{Removal, Residue, ResidueId};

fn row(id: ResidueId, what: &str, location: &str, outcome: Removal) -> Residue {
    Residue {
        id,
        what: what.to_owned(),
        location: location.to_owned(),
        outcome,
    }
}

fn planned() -> Removal {
    Removal::Planned {
        how: "remove it".to_owned(),
    }
}

#[test]
fn plain_text_spells_typography_in_ascii() {
    assert_eq!(
        plain_text("MixEngine — shared sites, 1–2, ‘a’ “b” …"),
        "MixEngine - shared sites, 1-2, 'a' \"b\" ..."
    );
}

#[test]
fn plain_text_leaves_other_characters_alone() {
    assert_eq!(plain_text(r"C:\Users\Nguyễn\x"), r"C:\Users\Nguyễn\x");
}

#[test]
fn plain_text_spells_the_figure_dash_and_the_minus_too() {
    assert_eq!(plain_text("\u{2012}\u{2212}"), "--");
    assert_eq!(plain_text(""), "");
}

#[test]
fn plain_text_twice_is_plain_text_once() {
    let once = plain_text("“quoted” — and … more");
    assert_eq!(plain_text(&once), once);
}

#[test]
fn a_length_of_time_is_read_from_its_suffix() {
    assert_eq!(for_seconds("30s"), Ok(30));
    assert_eq!(for_seconds("30"), Ok(30));
    assert_eq!(for_seconds("90m"), Ok(5_400));
    assert_eq!(for_seconds("2h"), Ok(7_200));
    assert_eq!(for_seconds("1d"), Ok(86_400));
}

#[test]
fn a_length_of_time_of_zero_or_a_word_is_refused() {
    assert!(for_seconds("0").is_err());
    assert!(for_seconds("0h").is_err());
    assert!(for_seconds("soon").is_err());
    assert!(for_seconds("2 hours").is_err());
    assert!(for_seconds("").is_err());
    assert!(for_seconds("-1").is_err());
}

#[test]
fn a_length_too_large_to_hold_is_refused() {
    assert!(for_seconds(&format!("{}d", u64::MAX)).is_err());
}

#[test]
fn a_refused_length_says_what_to_type() {
    assert_eq!(
        for_seconds("soon"),
        Err("`soon` is not a length of time — try `30s`, `90m`, `2h` or `1d`".to_owned())
    );
}

#[test]
fn a_length_that_only_overflows_when_multiplied_is_refused() {
    // Fits as a number of days, not as a number of seconds.
    assert!(for_seconds("213503982334602d").is_err());
    assert_eq!(for_seconds("18446744073709551615"), Ok(u64::MAX));
    assert!(for_seconds("18446744073709551616").is_err());
}

#[test]
fn the_scaffold_question_says_what_is_known_about_the_blueprint() {
    assert!(vouching(false, Some(SignatureCheck::Verified)).contains("is signed"));

    let rejected = vouching(true, Some(SignatureCheck::Rejected));
    assert!(rejected.contains("not the gallery's"), "{rejected}");

    let missing = vouching(true, Some(SignatureCheck::Missing));
    assert!(missing.contains("Nothing vouches"), "{missing}");

    assert_eq!(vouching(true, None), missing);
}

#[test]
fn an_update_answer_tells_the_daemon_only_what_decides_something() {
    assert_eq!(Choice::Install.decision(), None);
    assert_eq!(Choice::Skip.decision(), Some(UpdateDecision::Skip));
    assert_eq!(Choice::Later.decision(), Some(UpdateDecision::Later));
}

#[test]
fn nobody_to_ask_about_an_update_is_a_refusal_naming_yes() {
    let refused = chosen_update(true, Some(Choice::Install)).unwrap_err();
    assert_eq!(refused.code, ErrorCode::PreconditionFailed);
    assert_eq!(
        refused.message,
        "nothing answered the question, so nothing was asked of the operating system either"
    );
    assert_eq!(
        refused.hint.as_deref(),
        Some("pass `--yes` to answer in advance")
    );
    assert_eq!(
        chosen_update(false, None).unwrap_err().code,
        ErrorCode::PreconditionFailed
    );
    assert_eq!(chosen_update(false, Some(Choice::Later)).unwrap(), Choice::Later);
}

#[test]
fn the_update_question_names_the_version() {
    assert_eq!(
        update_question("1.2.3"),
        "\ninstall MixEngine 1.2.3? [i]nstall / [s]kip / [l]ater: "
    );
}

#[test]
fn the_refusals_say_what_to_do() {
    let refused = unanswered();
    assert_eq!(refused.code, ErrorCode::InvalidArgument);
    let version = unanswerable_question();
    assert!(version.message.contains("nothing answered the question"));
    assert!(version.hint.unwrap().contains("--install-missing"));
    let since = since_refusal("soon");
    assert_eq!(since.message, "`--since soon` is not a length of time");
    assert!(since.hint.unwrap().contains("--since 2h"));
}

#[test]
fn a_since_is_a_count_and_a_unit() {
    assert_eq!(since_span("30s").unwrap(), 30_000);
    assert_eq!(since_span("2h").unwrap(), 7_200_000);
    assert_eq!(since_span("1d").unwrap(), 86_400_000);
    assert!(since_span("30").is_err());
    assert!(since_span("h").is_err());
    assert!(since_span("2w").is_err());
    assert!(since_span("2hh").is_err());
    assert_eq!(since_span("9223372036854775807d").unwrap(), i64::MAX);
    assert_eq!(since_moment_at(10_000_000, "2h").unwrap(), 2_800_000);
    assert_eq!(since_moment_at(i64::MIN + 5, "1s").unwrap(), i64::MIN);
}

#[test]
fn a_pid_handed_to_another_process_reads_as_ended() {
    assert!(!has_ended(Some(7), 7));
    assert!(has_ended(Some(8), 7));
    assert!(has_ended(None, 7));
}

#[test]
fn an_uninstall_is_finished_when_nothing_failed_or_waits() {
    let done = vec![row(ResidueId::Home, "home", "/h", planned())];
    assert!(finished_uninstall(&done));
    let failed = vec![row(
        ResidueId::HostsBlock,
        "hosts",
        "/etc/hosts",
        Removal::Failed {
            because: "no".to_owned(),
        },
    )];
    assert!(!finished_uninstall(&failed));
    let waiting = vec![row(
        ResidueId::HostsBlock,
        "hosts",
        "/etc/hosts",
        Removal::Enqueued {
            how: "later".to_owned(),
        },
    )];
    assert!(!finished_uninstall(&waiting));
}

#[test]
fn what_goes_is_the_planned_directories() {
    let items = vec![
        row(ResidueId::Home, "home", "/h", planned()),
        row(
            ResidueId::RelocatedDirectory,
            "moved",
            "/logs",
            Removal::Kept {
                because: "asked".to_owned(),
            },
        ),
        row(ResidueId::WindowCache, "cache", "/cache", planned()),
        row(ResidueId::HostsBlock, "hosts", "/etc/hosts", planned()),
    ];
    assert_eq!(going_locations(&items), vec!["/h".to_owned(), "/cache".to_owned()]);
}

#[test]
fn the_relocated_listing_leaves_tombstones_out() {
    let items = vec![
        row(ResidueId::Home, "home", "/h", planned()),
        row(ResidueId::RelocatedDirectory, "moved", "/logs", planned()),
        row(
            ResidueId::RelocatedDirectory,
            "old",
            "/logs.removing-4",
            planned(),
        ),
    ];
    assert_eq!(relocated_listing(&items), vec!["/logs\n".to_owned()]);
    assert!(relocated_listing(&vec![row(ResidueId::Home, "home", "/h", planned())]).is_empty());
}

#[test]
fn the_blocked_listing_names_what_and_where() {
    let items = vec![
        row(ResidueId::Home, "home", "/h", planned()),
        row(
            ResidueId::InUse,
            "php.exe (pid 42)",
            r"C:\home\runtimes\php.exe",
            Removal::Blocked {
                by: "running".to_owned(),
            },
        ),
    ];
    assert_eq!(
        blocked_listing(&items),
        vec!["php.exe (pid 42): C:\\home\\runtimes\\php.exe\n".to_owned()]
    );
    assert_eq!(BLOCKED, 3);
}

#[test]
fn the_uninstall_question_mentions_moved_directories_only_when_there_are_some() {
    let plain = vec![row(ResidueId::Home, "home", "/h", planned())];
    assert_eq!(
        uninstall_question(&plain, false, false),
        "\nremove MixEngine from this machine, including this home and every database in it? [y/N] "
    );
    assert_eq!(
        uninstall_question(&plain, true, true),
        "\nundo everything MixEngine has done to this machine, and keep this home? [y/N] "
    );
    let moved = vec![
        row(ResidueId::Home, "home", "/h", planned()),
        row(ResidueId::RelocatedDirectory, "moved", "/logs", planned()),
    ];
    assert!(uninstall_question(&moved, false, true).contains("but keep the directories moved out"));
    assert!(uninstall_question(&moved, true, false).contains("remove the directories moved out"));
    assert!(uninstall_question(&moved, true, true)
        .contains("keep this home and the directories moved out"));
    assert!(uninstall_question(&moved, false, false)
        .contains("the directories moved out of it, and every database in them"));
}

#[test]
fn an_uninstall_under_json_is_never_agreed_for_the_caller() {
    assert!(agreed_to_uninstall(true, Some(true)).is_err());
    assert!(agreed_to_uninstall(false, None).is_err());
    assert_eq!(agreed_to_uninstall(false, Some(false)).unwrap(), false);
    assert_eq!(agreed_to_uninstall(false, Some(true)).unwrap(), true);
    assert_eq!(
        declined_line(11),
        "nothing was removed; 11 row(s) are still where they were"
    );
}

use mixengine::cli::{site_kind, site_routes, RouteTarget, SiteKind, SiteKindArg};

fn strings(values: &[&str]) -> Vec<String> {
    values.iter().map(|value| (*value).to_owned()).collect()
}

#[test]
fn three_flags_build_one_route_list() {
    let routes = site_routes(
        &strings(&["/api=http://127.0.0.1:3003/xyz"]),
        &strings(&["/admin=php-fpm@8.3.33", "/old"]),
        &strings(&["/assets=dist"]),
        false,
        &vec![None, None],
    )
    .expect("a list")
    .expect("some routes");

    assert_eq!(routes.len(), 4);
    assert_eq!(routes[0].path, "/api");
    assert_eq!(
        routes[0].target,
        RouteTarget::Proxy {
            upstream: "http://127.0.0.1:3003/xyz".to_owned()
        }
    );
    assert_eq!(
        routes[1].target,
        RouteTarget::PhpFpm {
            pool: Some("php-fpm@8.3.33".to_owned())
        }
    );
    assert_eq!(
        routes[2].target,
        RouteTarget::PhpFpm { pool: None },
        "a `--php` with no pool leaves the resolution to the daemon, as a site does"
    );
    assert_eq!(
        routes[3].target,
        RouteTarget::Static {
            root: "dist".to_owned()
        }
    );

    assert!(site_routes(&vec![], &vec![], &vec![], false, &vec![])
        .expect("nothing")
        .is_none());
    assert_eq!(
        site_routes(&vec![], &vec![], &vec![], true, &vec![])
            .expect("cleared")
            .map(|routes| routes.len()),
        Some(0)
    );

    assert!(site_routes(&strings(&["/a=http://h:1"]), &vec![], &vec![], true, &vec![]).is_err());
    assert!(site_routes(&strings(&["/a"]), &vec![], &vec![], false, &vec![]).is_err());
}

#[test]
fn a_route_without_an_equals_sign_says_how_to_write_one() {
    let refused = site_routes(&strings(&["/api"]), &vec![], &vec![], false, &vec![]).unwrap_err();
    assert_eq!(refused.message, "/api is not a --proxy route");
    assert_eq!(refused.hint.as_deref(), Some("<path>=an address, as in --proxy /api=…"));

    let refused =
        site_routes(&vec![], &vec![], &strings(&["dist"]), false, &vec![]).unwrap_err();
    assert_eq!(refused.message, "dist is not a --files route");

    let refused = site_routes(
        &vec![],
        &strings(&["/admin=nonsense"]),
        &vec![],
        false,
        &vec![Some("\"nonsense\" is not a service".to_owned())],
    )
    .unwrap_err();
    assert_eq!(refused.message, "\"nonsense\" is not a service");
    assert!(refused.hint.unwrap().contains("php-fpm@8.3.33"));
}

#[test]
fn a_route_splits_at_the_first_equals_sign() {
    let routes = site_routes(&strings(&["/q=http://h/?a=b"]), &vec![], &vec![], false, &vec![])
        .unwrap()
        .unwrap();
    assert_eq!(routes[0].path, "/q");
    assert_eq!(
        routes[0].target,
        RouteTarget::Proxy {
            upstream: "http://h/?a=b".to_owned()
        }
    );
}

#[test]
fn a_site_kind_needs_what_it_cannot_do_without() {
    assert_eq!(site_kind(None, None, None, None).unwrap(), None);
    assert_eq!(
        site_kind(None, None, None, Some("php-fpm@8.3.33".to_owned())).unwrap(),
        Some(SiteKind::PhpFpm {
            pool: Some("php-fpm@8.3.33".to_owned())
        })
    );
    assert_eq!(
        site_kind(Some(SiteKindArg::Static), None, None, None).unwrap(),
        Some(SiteKind::Static)
    );
    let refused = site_kind(Some(SiteKindArg::ReverseProxy), None, None, None).unwrap_err();
    assert_eq!(refused.message, "--upstream says where to forward to");
    let refused = site_kind(Some(SiteKindArg::NodeApp), None, None, None).unwrap_err();
    assert_eq!(refused.message, "--port says where the node process listens");
    assert_eq!(
        site_kind(Some(SiteKindArg::NodeApp), None, Some(3000), None).unwrap(),
        Some(SiteKind::NodeApp { port: 3000 })
    );
}

use mixengine::cli::{
    advisories_said, agreed_to_cleanup, agreed_to_prerequisites, cleanup_asked, confirmed,
    left_line, on_exit_locations, prerequisites_asked, still_there, DiskCategory, RemedyKind,
    Usage,
};

#[test]
fn only_an_installable_lack_is_asked_about() {
    let installable = RemedyKind::InstallVisualCpp;
    let escapable = RemedyKind::Elsewhere;

    assert_eq!(agreed_to_prerequisites(&vec![], false, true, None).unwrap(), Some(false));
    assert_eq!(
        agreed_to_prerequisites(&vec![escapable], false, true, None).unwrap(),
        Some(false)
    );
    assert_eq!(
        agreed_to_prerequisites(&vec![installable], true, true, None).unwrap(),
        Some(true)
    );
    assert!(
        agreed_to_prerequisites(&vec![installable], false, true, None).is_err(),
        "--json needs --yes"
    );

    let advisory = RemedyKind::InstallFromDistribution;
    assert_eq!(
        agreed_to_prerequisites(&vec![advisory], false, true, None).unwrap(),
        Some(false),
        "it goes on, and nothing was agreed to"
    );
}

#[test]
fn an_installable_lack_is_put_to_a_person() {
    let lack = vec![RemedyKind::InstallVisualCpp, RemedyKind::InstallFromDistribution];
    assert!(prerequisites_asked(&lack, false, false));
    assert!(!prerequisites_asked(&lack, true, false));
    assert!(!prerequisites_asked(&vec![RemedyKind::InstallVisualCpp, RemedyKind::Elsewhere], false, false));
    assert_eq!(agreed_to_prerequisites(&lack, false, false, Some(true)).unwrap(), Some(true));
    assert_eq!(agreed_to_prerequisites(&lack, false, false, Some(false)).unwrap(), None);
    assert!(agreed_to_prerequisites(&lack, false, false, None).is_err());
    assert!(advisories_said(&lack, false));
    assert!(!advisories_said(&lack, true));
    assert!(!advisories_said(&vec![RemedyKind::InstallVisualCpp], false));
}

#[test]
fn a_cleanup_that_takes_nothing_is_a_yes() {
    let usage = vec![
        Usage {
            id: DiskCategory::Logs,
            reclaim: 4096,
        },
        Usage {
            id: DiskCategory::Cache,
            reclaim: 0,
        },
        Usage {
            id: DiskCategory::Other,
            reclaim: 1 << 20,
        },
    ];
    assert!(agreed_to_cleanup(&usage, true, false, true, None).unwrap());
    assert!(!cleanup_asked(&usage, true, false, false));
    assert!(cleanup_asked(&usage, false, true, false));
    assert!(agreed_to_cleanup(&usage, false, true, true, None).is_err());
    assert!(!agreed_to_cleanup(&usage, false, true, false, Some(false)).unwrap());
    assert!(agreed_to_cleanup(&usage, false, true, false, Some(true)).unwrap());
}

#[test]
fn a_grant_under_json_is_never_confirmed() {
    assert!(confirmed(true, Some(true)).is_err());
    assert!(confirmed(false, Some(true)).unwrap());
    assert!(!confirmed(false, Some(false)).unwrap());
    assert!(confirmed(false, None).is_err());
}

#[test]
fn what_is_still_there_is_read_once_and_in_order() {
    let items = vec![
        row(
            ResidueId::Home,
            "home",
            "/h",
            Removal::OnExit {
                how: "when the daemon exits".to_owned(),
            },
        ),
        row(ResidueId::HostsBlock, "hosts", "/etc/hosts", planned()),
    ];
    assert_eq!(on_exit_locations(&items), vec!["/h".to_owned()]);
    assert_eq!(
        still_there(strings(&["/h", "/a", "/h.removing-4", "/a"])),
        strings(&["/a", "/h", "/h.removing-4"])
    );
    assert!(still_there(vec![]).is_empty());
    assert_eq!(left_line("/h"), "still there: /h");
}
