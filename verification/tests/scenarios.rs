use lockstep_sim::{
    init_state, run_sim_until_next_event, EventType, ProgArgLogLevel, ProgArgs, SimError,
    StepOutcome,
};

fn args(l_buf_size: usize, lat_mean: usize, lat_std: usize, num_events_to_proc: usize) -> ProgArgs {
    ProgArgs { l_buf_size, lat_mean, lat_std, num_events_to_proc, log_level: ProgArgLogLevel::Info }
}

#[test]
fn zero_latency_runs_twenty_events_without_a_stall() {
    let p_args = args(3, 0, 0, 20);
    let mut ss = init_state(&p_args, &vec![0; 6]).unwrap();
    let mut ticks = [0usize; 2];
    for _ in 0..p_args.num_events_to_proc {
        while ss.latency_samples_in_store() < ss.latency_samples_wanted() {
            ss.supply_latency_sample(0);
        }
        let report = run_sim_until_next_event(&mut ss).unwrap();
        assert!(!matches!(report.outcome, StepOutcome::Stalled { .. }));
        if let EventType::NextUpdateCycle(client_id) = report.event.e_type {
            ticks[client_id] += 1;
        }
    }
    assert_eq!(ticks, [4, 4]);
    assert!(!ss.client(0).unwrap().is_stalled());
    assert!(!ss.client(1).unwrap().is_stalled());
    assert_eq!(ss.client(0).unwrap().curr_update_cycle(), 4);
    assert_eq!(ss.client(1).unwrap().curr_update_cycle(), 4);
    assert_eq!(ss.ms_elapsed(), 48);
}

#[test]
fn high_latency_stalls_both_clients_within_four_events() {
    let p_args = args(1, 1000, 0, 10);
    let mut ss = init_state(&p_args, &vec![1000; 2]).unwrap();
    let mut stalls = [0usize; 2];
    let mut stalls_in_first_four = [0usize; 2];
    for event_num in 0..p_args.num_events_to_proc {
        while ss.latency_samples_in_store() < ss.latency_samples_wanted() {
            ss.supply_latency_sample(1000);
        }
        let report = run_sim_until_next_event(&mut ss).unwrap();
        if let StepOutcome::Stalled { .. } = report.outcome {
            let client_id = match report.event.e_type {
                EventType::NextUpdateCycle(client_id) => client_id,
                EventType::MessageArrival(_) => unreachable!(),
            };
            stalls[client_id] += 1;
            if event_num < 4 {
                stalls_in_first_four[client_id] += 1;
            }
        }
    }
    assert!(stalls_in_first_four[0] >= 1);
    assert!(stalls_in_first_four[1] >= 1);
    assert_eq!(stalls, [2, 2]);
    assert_eq!(ss.ms_elapsed(), 2000);
}

#[test]
fn too_few_samples_for_the_seeding_are_refused() {
    let p_args = args(3, 50, 5, 100);
    assert!(matches!(init_state(&p_args, &vec![50; 5]), Err(SimError::MissingLatencySample)));
    assert!(init_state(&p_args, &vec![50; 6]).is_ok());
}
