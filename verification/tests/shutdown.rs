use mixengine::daemon::{
    client_grace, signalled_budget, CEILING_RESERVE, CHECKPOINT_MARGIN, CLIENT_GRACE,
    CONFIRMATION_REPRIEVE, KILL_GRACE, SCHEDULING_SLACK, SIGNAL_CLIENT_GRACE,
};

/// The ceilings an operating system states: Windows' five seconds, and none elsewhere.
const CEILINGS: [Option<u64>; 2] = [Some(5_000), None];

#[test]
fn a_shutdown_the_operating_system_asked_for_fits_inside_whatever_clock_it_started() {
    for stop_ceiling in CEILINGS {
        let configured = 10_000;
        let budget = signalled_budget(configured, stop_ceiling);

        match stop_ceiling {
            Some(ceiling) => {
                assert!(
                    budget + CEILING_RESERVE <= ceiling,
                    "the connections and the WAL checkpoint happen after the services stop, and \
                     this budget leaves no room for them: {budget:?} of {ceiling:?}"
                );
                assert!(budget < configured, "a ceiling shortens the budget");
            }
            None => assert_eq!(budget, configured),
        }
    }
}

#[test]
fn a_shutdown_the_operating_system_asked_for_leaves_slack_over_after_the_checkpoint() {
    for stop_ceiling in CEILINGS {
        let budget = signalled_budget(10_000, stop_ceiling);

        if let Some(ceiling) = stop_ceiling {
            assert!(
                budget + SIGNAL_CLIENT_GRACE + CHECKPOINT_MARGIN < ceiling,
                "what this budget leaves is the whole of the rest of the ceiling: {budget:?} of \
                 {ceiling:?}"
            );
        }

        assert!(
            SIGNAL_CLIENT_GRACE + CHECKPOINT_MARGIN < CEILING_RESERVE,
            "{SCHEDULING_SLACK:?} of the reserve is meant to be left over"
        );
    }
}

#[test]
fn a_second_request_to_stop_costs_less_than_the_reserve_keeps_in_hand() {
    for stop_ceiling in CEILINGS {
        assert!(
            KILL_GRACE + CONFIRMATION_REPRIEVE < SCHEDULING_SLACK,
            "an escalated shutdown waits {KILL_GRACE:?}, and a stop watching a killed survivor \
             {CONFIRMATION_REPRIEVE:?}, out of {SCHEDULING_SLACK:?}"
        );

        if let Some(ceiling) = stop_ceiling {
            let budget = signalled_budget(10_000, stop_ceiling);

            assert!(
                budget + KILL_GRACE + CONFIRMATION_REPRIEVE + SIGNAL_CLIENT_GRACE + CHECKPOINT_MARGIN
                    < ceiling,
                "a second Ctrl-C at the last instant of the budget must still leave the checkpoint \
                 inside {ceiling:?}"
            );
        }
    }
}

#[test]
fn a_configured_budget_smaller_than_the_ceiling_is_still_the_one_that_applies() {
    for stop_ceiling in CEILINGS {
        assert_eq!(signalled_budget(1, stop_ceiling), 1);
    }
}

#[test]
fn a_ceiling_under_the_reserve_leaves_the_services_nothing() {
    assert_eq!(signalled_budget(10_000, Some(1_000)), 0);
    assert_eq!(signalled_budget(10_000, Some(5_000)), 2_500);
    assert_eq!(signalled_budget(0, Some(5_000)), 0);
    assert_eq!(signalled_budget(u64::MAX, None), u64::MAX);
}

#[test]
fn the_reserve_is_its_three_parts() {
    assert_eq!(CEILING_RESERVE, 2_500);
    assert_eq!(
        CEILING_RESERVE,
        SIGNAL_CLIENT_GRACE + CHECKPOINT_MARGIN + SCHEDULING_SLACK
    );
}

#[test]
fn the_clients_get_less_when_a_clock_is_running() {
    assert_eq!(client_grace(true), 500);
    assert_eq!(client_grace(false), CLIENT_GRACE);
    assert_eq!(CLIENT_GRACE, 2_000);
}
