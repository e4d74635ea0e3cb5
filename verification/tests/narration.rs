use lockstep_sim::{
    decimal_string, get_ms_as_str, ms_string, print_info_about_prog_args, EventType, Message,
    ProgArgLogLevel, ProgArgs, StepOutcome, StepReport, UpcomingEvent,
};

#[test]
fn numbers_are_written_in_decimal() {
    assert_eq!(decimal_string(0), "0");
    assert_eq!(decimal_string(7), "7");
    assert_eq!(decimal_string(10), "10");
    assert_eq!(decimal_string(1234567890), "1234567890");
    assert_eq!(decimal_string(u128::MAX), u128::MAX.to_string());
    assert_eq!(get_ms_as_str(48), "48ms");
    assert_eq!(get_ms_as_str(0), "0ms");
    assert_eq!(ms_string(16 * usize::MAX as u128), format!("{}ms", 16 * usize::MAX as u128));
}

#[test]
fn events_are_named_by_what_happens_to_whom() {
    assert_eq!(EventType::NextUpdateCycle(1).describe(), "Update cycle for client 1");
    assert_eq!(
        EventType::MessageArrival(Message::new(12, 0, 1)).describe(),
        "Message arrived for client 1 from client 0 for update cycle 12"
    );
}

#[test]
fn a_stall_is_told_in_three_lines() {
    let report = StepReport {
        event: UpcomingEvent {
            event_trigger_time: 1016,
            e_type: EventType::NextUpdateCycle(1),
        },
        outcome: StepOutcome::Stalled { cycle: 1 },
    };
    assert_eq!(
        report.narration(),
        vec![
            "Event: Update cycle for client 1 (sim time: 1016ms)",
            "Update cycle 1 just completed for client 1",
            "Client 1 has stalled!",
        ]
    );
}

#[test]
fn a_completed_cycle_is_told_in_two_lines() {
    let report = StepReport {
        event: UpcomingEvent { event_trigger_time: 32, e_type: EventType::NextUpdateCycle(0) },
        outcome: StepOutcome::Advanced { completed_cycle: 2, target_cycle: 6 },
    };
    assert_eq!(
        report.narration(),
        vec![
            "Event: Update cycle for client 0 (sim time: 32ms)",
            "Update cycle 2 just completed for client 0",
        ]
    );
}

#[test]
fn an_arrival_tells_each_cycle_that_it_completed() {
    let event = UpcomingEvent {
        event_trigger_time: 70,
        e_type: EventType::MessageArrival(Message::new(2, 1, 0)),
    };
    let report = StepReport {
        event,
        outcome: StepOutcome::Received { first_cleared: 2, next_awaited: 5, resumed: true },
    };
    assert_eq!(
        report.narration(),
        vec![
            "Event: Message arrived for client 0 from client 1 for update cycle 2 (sim time: 70ms)",
            "Client 0 just received all other pending client info for frame 2.",
            "Client 0 just received all other pending client info for frame 3.",
            "Client 0 just received all other pending client info for frame 4.",
        ]
    );
    let nothing_gathered = StepReport {
        event,
        outcome: StepOutcome::Received { first_cleared: 2, next_awaited: 2, resumed: false },
    };
    assert_eq!(
        nothing_gathered.narration(),
        vec!["Event: Message arrived for client 0 from client 1 for update cycle 2 (sim time: 70ms)"]
    );
}

#[test]
fn the_configuration_is_told_in_four_lines() {
    let p_args = ProgArgs {
        l_buf_size: 3,
        lat_mean: 50,
        lat_std: 5,
        num_events_to_proc: 100,
        log_level: ProgArgLogLevel::Info,
    };
    assert_eq!(
        print_info_about_prog_args(&p_args),
        vec![
            "Lockstep buffer size: 3 frames (48ms)",
            "Latency mean: 50ms",
            "Latency std: 5ms",
            "Simulation length: 100 events",
        ]
    );
    let huge = ProgArgs { l_buf_size: usize::MAX, ..p_args };
    assert_eq!(
        print_info_about_prog_args(&huge)[0],
        format!(
            "Lockstep buffer size: {} frames ({}ms)",
            usize::MAX,
            usize::MAX as u128 * 16
        )
    );
}

#[test]
fn log_levels_have_lower_case_names() {
    assert_eq!(ProgArgLogLevel::Trace.name(), "trace");
    assert_eq!(ProgArgLogLevel::Debug.name(), "debug");
    assert_eq!(ProgArgLogLevel::Info.name(), "info");
    assert_eq!(ProgArgLogLevel::Warn.name(), "warn");
    assert_eq!(ProgArgLogLevel::Error.name(), "error");
}

#[test]
fn log_levels_are_named_in_any_case() {
    assert_eq!(ProgArgLogLevel::from_name("trace"), Some(ProgArgLogLevel::Trace));
    assert_eq!(ProgArgLogLevel::from_name("DEBUG"), Some(ProgArgLogLevel::Debug));
    assert_eq!(ProgArgLogLevel::from_name("Info"), Some(ProgArgLogLevel::Info));
    assert_eq!(ProgArgLogLevel::from_name("wArN"), Some(ProgArgLogLevel::Warn));
    assert_eq!(ProgArgLogLevel::from_name("error"), Some(ProgArgLogLevel::Error));
    assert_eq!(ProgArgLogLevel::from_name("err"), None);
    assert_eq!(ProgArgLogLevel::from_name("errors"), None);
    assert_eq!(ProgArgLogLevel::from_name(""), None);
    assert_eq!(ProgArgLogLevel::from_name("inf0"), None);
    assert_eq!(ProgArgLogLevel::from_name("inf\u{4f}"), Some(ProgArgLogLevel::Info));
    assert_eq!(ProgArgLogLevel::from_name("\u{130}nfo"), None);
    assert_eq!(ProgArgLogLevel::from_name("verbose"), None);
    for level in [
        ProgArgLogLevel::Trace,
        ProgArgLogLevel::Debug,
        ProgArgLogLevel::Info,
        ProgArgLogLevel::Warn,
        ProgArgLogLevel::Error,
    ] {
        assert_eq!(ProgArgLogLevel::from_name(level.name()), Some(level));
    }
}
