use mixengine::cli::{
    agreed_to_switch, switch_asked, switch_notice, switch_question, the_front_end, ErrorCode,
    Found, ServiceRole, ServiceRow,
};

fn row(id: &str, name: &str, role: Option<ServiceRole>) -> ServiceRow {
    ServiceRow {
        id: id.to_owned(),
        name: name.to_owned(),
        role,
    }
}

fn home() -> Vec<ServiceRow> {
    vec![
        row("mysql@8.4", "mysql", Some(ServiceRole::Other)),
        row("nginx@main", "nginx", Some(ServiceRole::FrontEnd)),
        row("caddy@main", "caddy", Some(ServiceRole::FrontEnd)),
    ]
}

#[test]
fn the_front_end_is_the_first_row_that_says_so() {
    assert_eq!(the_front_end(&home()), Found::On(1));
}

#[test]
fn an_empty_home_has_no_front_end_whatever_the_daemon() {
    assert_eq!(the_front_end(&Vec::new()), Found::Absent);
}

#[test]
fn rows_that_answered_without_one_mean_none() {
    let rows = vec![
        row("redis@main", "redis", None),
        row("mysql@8.4", "mysql", Some(ServiceRole::Other)),
    ];
    assert_eq!(the_front_end(&rows), Found::Absent);
}

#[test]
fn rows_that_never_answered_are_no_answer() {
    let rows = vec![row("redis@main", "redis", None), row("mysql@8.4", "mysql", None)];
    assert_eq!(the_front_end(&rows), Found::Unanswered);
}

#[test]
fn switching_to_the_server_already_in_front_is_a_yes_nobody_is_asked() {
    assert!(!switch_asked(&home(), "nginx", false));
    assert!(matches!(agreed_to_switch(&home(), "nginx", true, None), Ok(true)));
}

#[test]
fn switching_elsewhere_is_asked_and_refused_under_json() {
    assert!(switch_asked(&home(), "caddy", false));
    assert!(!switch_asked(&home(), "caddy", true));
    let e = agreed_to_switch(&home(), "caddy", true, Some(true)).unwrap_err();
    assert_eq!(e.code, ErrorCode::InvalidArgument);
    assert!(matches!(agreed_to_switch(&home(), "caddy", false, Some(false)), Ok(false)));
    assert!(matches!(agreed_to_switch(&home(), "caddy", false, Some(true)), Ok(true)));
    assert!(agreed_to_switch(&home(), "caddy", false, None).is_err());
}

#[test]
fn the_notice_names_what_stops_or_says_there_is_nothing() {
    let permission = "this machine may ask permission for it to answer on 80 and 443, and \
                      anything else MixEngine is already waiting for is asked for at the same time \
                      — `mix elevation status` lists that.\n";
    assert_eq!(
        switch_notice(&home(), "caddy"),
        format!(
            "nginx@main is this home's front end.\nswitching to caddy stops it, renders every \
             site for caddy and starts it — no site is reachable while that happens.\n{permission}"
        )
    );
    assert_eq!(
        switch_notice(&Vec::new(), "caddy"),
        format!("this home has no front end; caddy becomes one, and is left stopped.\n{permission}")
    );
    assert_eq!(switch_question("caddy"), "\nswitch to caddy? [y/N] ");
}
