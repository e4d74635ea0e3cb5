use lockstep_sim::{
    delays_needed_to_seed, init_state, init_state_with_clients, run_sim_until_next_event,
    EventType, Message, ProgArgLogLevel, ProgArgs, SimError, SimState, StepOutcome, StepReport,
    UpcomingEvent, NUM_CLIENTS, UPDATE_CYCLE_FREQ,
};
use rand::rngs::StdRng;
use rand::SeedableRng;
use rand_distr::{Distribution, Normal};

fn args(l_buf_size: usize) -> ProgArgs {
    ProgArgs {
        l_buf_size,
        lat_mean: 50,
        lat_std: 5,
        num_events_to_proc: 100,
        log_level: ProgArgLogLevel::Info,
    }
}

fn tick(time: usize, client_id: usize) -> UpcomingEvent {
    UpcomingEvent { event_trigger_time: time, e_type: EventType::NextUpdateCycle(client_id) }
}

fn arrival(time: usize, cycle: usize, from: usize, to: usize) -> UpcomingEvent {
    UpcomingEvent {
        event_trigger_time: time,
        e_type: EventType::MessageArrival(Message::new(cycle, from, to)),
    }
}

fn step_with(ss: &mut SimState, raw: isize) -> Result<StepReport, SimError> {
    while ss.latency_samples_in_store() < ss.latency_samples_wanted() {
        ss.supply_latency_sample(raw);
    }
    run_sim_until_next_event(ss)
}

#[test]
fn the_update_period_is_a_sixtieth_of_a_second() {
    assert_eq!(UPDATE_CYCLE_FREQ, 16);
    assert_eq!(NUM_CLIENTS, 2);
}

#[test]
fn seeding_needs_one_delay_for_each_cycle_and_ordered_pair() {
    assert_eq!(delays_needed_to_seed(2, 3), Some(6));
    assert_eq!(delays_needed_to_seed(2, 1), Some(2));
    assert_eq!(delays_needed_to_seed(3, 2), Some(12));
    assert_eq!(delays_needed_to_seed(4, 5), Some(60));
    assert_eq!(delays_needed_to_seed(1, 9), Some(0));
    assert_eq!(delays_needed_to_seed(0, 9), Some(0));
    assert_eq!(delays_needed_to_seed(7, 0), Some(0));
    assert_eq!(delays_needed_to_seed(usize::MAX, 0), Some(0));
    assert_eq!(delays_needed_to_seed(usize::MAX, 1), None);
    assert_eq!(delays_needed_to_seed(2, usize::MAX), None);
    assert_eq!(delays_needed_to_seed(2, usize::MAX / 2), Some(usize::MAX - 1));
}

#[test]
fn a_fresh_simulation_stands_at_time_zero_with_every_tick_pending() {
    let ss = init_state(&args(3), &vec![50, 51, 52, 53, 54, 55, 56]).unwrap();
    assert_eq!(ss.ms_elapsed(), 0);
    assert_eq!(ss.num_clients(), 2);
    assert_eq!(ss.num_pending_events(), 8);
    assert_eq!(ss.latency_samples_in_store(), 1);
    assert_eq!(ss.next_event(), Some(tick(0, 0)));
    assert!(ss.client(2).is_none());
    for client_id in 0..2 {
        let client = ss.client(client_id).unwrap();
        assert_eq!(client.client_id(), client_id);
        assert_eq!(client.curr_update_cycle(), 0);
        assert_eq!(client.lockstep_buffer_size(), 3);
        assert_eq!(client.next_update_cycle_that_we_are_waiting_on(), 0);
        assert!(!client.is_stalled());
    }
}

#[test]
fn after_seeding_each_client_waits_once_for_each_peer_and_seeded_cycle() {
    for num_clients in 0..5usize {
        for l_buf_size in 0..4usize {
            let needed = delays_needed_to_seed(num_clients, l_buf_size).unwrap();
            let ss = init_state_with_clients(num_clients, l_buf_size, &vec![10; needed]).unwrap();
            assert_eq!(ss.num_clients(), num_clients);
            assert_eq!(ss.num_pending_events(), needed + num_clients);
            assert_eq!(ss.latency_samples_in_store(), 0);
            for client_id in 0..num_clients {
                let client = ss.client(client_id).unwrap();
                assert_eq!(client.num_waiting_on(), l_buf_size * (num_clients - 1));
                for peer in 0..num_clients + 1 {
                    for cycle in 0..l_buf_size + 2 {
                        let seeded = peer < num_clients && peer != client_id && cycle < l_buf_size;
                        assert_eq!(client.is_waiting_on(peer, cycle), seeded);
                    }
                }
            }
        }
    }
}

#[test]
fn seeded_messages_arrive_after_the_delays_in_the_order_supplied() {
    let mut ss = init_state(&args(2), &vec![30, 10, 20, 10]).unwrap();
    let mut delivered = Vec::new();
    for _ in 0..2 {
        let report = run_sim_until_next_event(&mut ss).unwrap();
        assert!(matches!(report.outcome, StepOutcome::Stalled { cycle: 0 }));
        delivered.push(report.event);
    }
    for _ in 0..2 {
        delivered.push(ss.next_event().unwrap());
        step_with(&mut ss, 1000).unwrap();
    }
    assert_eq!(delivered, vec![tick(0, 0), tick(0, 1), arrival(10, 0, 1, 0), arrival(10, 1, 1, 0)]);
}

#[test]
fn a_negative_sample_seeds_a_message_that_arrives_at_once() {
    let mut ss = init_state(&args(1), &vec![-40, 25]).unwrap();
    assert_eq!(ss.next_event(), Some(arrival(0, 0, 0, 1)));
    let report = run_sim_until_next_event(&mut ss).unwrap();
    assert_eq!(
        report.outcome,
        StepOutcome::Received { first_cleared: 0, next_awaited: 1, resumed: false }
    );
    assert_eq!(ss.next_event(), Some(tick(0, 0)));
}

#[test]
fn a_tick_completes_a_cycle_and_announces_the_target_cycle() {
    let mut ss = init_state(&args(3), &vec![0; 6]).unwrap();
    for _ in 0..6 {
        run_sim_until_next_event(&mut ss).unwrap();
    }
    assert_eq!(ss.latency_samples_wanted(), 1);
    ss.supply_latency_sample(40);
    let report = run_sim_until_next_event(&mut ss).unwrap();
    assert_eq!(report.event, tick(0, 0));
    assert_eq!(report.outcome, StepOutcome::Advanced { completed_cycle: 0, target_cycle: 4 });
    let client = ss.client(0).unwrap();
    assert_eq!(client.curr_update_cycle(), 1);
    assert!(client.is_waiting_on(1, 4));
    assert_eq!(client.num_waiting_on(), 1);
    assert_eq!(ss.latency_samples_in_store(), 0);
    assert_eq!(ss.next_event(), Some(tick(0, 1)));
    ss.supply_latency_sample(5);
    run_sim_until_next_event(&mut ss).unwrap();
    assert_eq!(ss.next_event(), Some(arrival(5, 4, 1, 0)));
    run_sim_until_next_event(&mut ss).unwrap();
    assert_eq!(ss.next_event(), Some(tick(16, 0)));
    ss.supply_latency_sample(0);
    run_sim_until_next_event(&mut ss).unwrap();
    assert_eq!(ss.next_event(), Some(tick(16, 1)));
    ss.supply_latency_sample(0);
    run_sim_until_next_event(&mut ss).unwrap();
    assert_eq!(ss.next_event(), Some(arrival(16, 5, 0, 1)));
    assert_eq!(ss.ms_elapsed(), 16);
}

#[test]
fn a_step_that_lacks_a_delay_changes_nothing_and_can_be_taken_later() {
    let mut ss = init_state(&args(3), &vec![0; 6]).unwrap();
    for _ in 0..6 {
        run_sim_until_next_event(&mut ss).unwrap();
    }
    assert_eq!(ss.latency_samples_wanted(), 1);
    assert_eq!(ss.latency_samples_in_store(), 0);
    assert_eq!(run_sim_until_next_event(&mut ss), Err(SimError::MissingLatencySample));
    assert_eq!(run_sim_until_next_event(&mut ss), Err(SimError::MissingLatencySample));
    assert_eq!(ss.num_pending_events(), 2);
    assert_eq!(ss.next_event(), Some(tick(0, 0)));
    assert_eq!(ss.client(0).unwrap().curr_update_cycle(), 0);
    ss.supply_latency_sample(9);
    let report = run_sim_until_next_event(&mut ss).unwrap();
    assert_eq!(report.outcome, StepOutcome::Advanced { completed_cycle: 0, target_cycle: 4 });
}

#[test]
fn a_lone_client_stalls_at_once_and_the_run_is_deadlocked() {
    let mut ss = init_state_with_clients(1, 3, &vec![]).unwrap();
    assert_eq!(ss.latency_samples_wanted(), 0);
    let report = run_sim_until_next_event(&mut ss).unwrap();
    assert_eq!(report.event, tick(0, 0));
    assert_eq!(report.outcome, StepOutcome::Stalled { cycle: 0 });
    assert!(ss.client(0).unwrap().is_stalled());
    assert_eq!(ss.num_pending_events(), 0);
    assert_eq!(run_sim_until_next_event(&mut ss), Err(SimError::Deadlock));
    assert_eq!(run_sim_until_next_event(&mut ss), Err(SimError::Deadlock));
    assert_eq!(ss.ms_elapsed(), 0);
}

#[test]
fn a_simulation_without_clients_is_deadlocked() {
    let mut ss = init_state_with_clients(0, 3, &vec![]).unwrap();
    assert_eq!(ss.num_pending_events(), 0);
    assert_eq!(run_sim_until_next_event(&mut ss), Err(SimError::Deadlock));
}

#[test]
fn a_notice_that_outruns_its_peer_is_a_protocol_violation() {
    // Client 0 hears of cycle 0 at once, client 1 only much later: client 0
    // resumes and announces cycle 2 before client 1 has come to wait for it.
    let mut ss = init_state(&args(1), &vec![1000, 10]).unwrap();
    assert!(matches!(step_with(&mut ss, 10).unwrap().outcome, StepOutcome::Stalled { .. }));
    assert!(matches!(step_with(&mut ss, 10).unwrap().outcome, StepOutcome::Stalled { .. }));
    assert_eq!(
        step_with(&mut ss, 10).unwrap().outcome,
        StepOutcome::Received { first_cleared: 0, next_awaited: 1, resumed: true }
    );
    assert_eq!(
        step_with(&mut ss, 10).unwrap().outcome,
        StepOutcome::Advanced { completed_cycle: 0, target_cycle: 2 }
    );
    assert_eq!(ss.next_event(), Some(arrival(20, 2, 0, 1)));
    let pending = ss.num_pending_events();
    assert_eq!(step_with(&mut ss, 10), Err(SimError::ProtocolViolation));
    assert_eq!(ss.num_pending_events(), pending);
    assert_eq!(ss.ms_elapsed(), 10);
    assert_eq!(ss.next_event(), Some(arrival(20, 2, 0, 1)));
}

#[test]
fn a_time_that_cannot_be_counted_is_an_overflow() {
    let mut ss = init_state(&args(1), &vec![isize::MAX; 2]).unwrap();
    let mut result = step_with(&mut ss, isize::MAX);
    let mut steps = 0;
    while result.is_ok() {
        steps += 1;
        assert!(steps < 20);
        result = step_with(&mut ss, isize::MAX);
    }
    assert_eq!(result, Err(SimError::Overflow));
    assert_eq!(ss.ms_elapsed(), usize::MAX - 1);
    assert_eq!(step_with(&mut ss, 0), Err(SimError::Overflow));
}

fn random_run(
    num_clients: usize,
    l_buf_size: usize,
    mean: usize,
    std_dev: usize,
    seed: u64,
    steps: usize,
) -> (SimState, Vec<StepReport>, Option<SimError>) {
    let normal = Normal::new(mean as f32, std_dev as f32).unwrap();
    let mut rng = StdRng::seed_from_u64(seed);
    let needed = delays_needed_to_seed(num_clients, l_buf_size).unwrap();
    let samples: Vec<isize> = (0..needed).map(|_| normal.sample(&mut rng) as isize).collect();
    let mut ss = init_state_with_clients(num_clients, l_buf_size, &samples).unwrap();
    let mut reports = Vec::new();
    for _ in 0..steps {
        while ss.latency_samples_in_store() < ss.latency_samples_wanted() {
            ss.supply_latency_sample(normal.sample(&mut rng) as isize);
        }
        match run_sim_until_next_event(&mut ss) {
            Ok(report) => reports.push(report),
            Err(error) => return (ss, reports, Some(error)),
        }
    }
    (ss, reports, None)
}

#[test]
fn time_never_runs_backwards() {
    for seed in 0..20u64 {
        for (num_clients, l_buf_size, mean, std_dev) in
            [(2, 3, 50, 5), (2, 1, 1000, 0), (3, 4, 20, 30), (4, 2, 5, 5), (2, 3, 0, 0)]
        {
            let (ss, reports, _) = random_run(num_clients, l_buf_size, mean, std_dev, seed, 300);
            let mut last = 0;
            for report in &reports {
                assert!(report.event.event_trigger_time >= last);
                last = report.event.event_trigger_time;
            }
            assert_eq!(ss.ms_elapsed(), last);
        }
    }
}

#[test]
fn a_run_ends_only_in_a_protocol_violation_or_a_deadlock() {
    let mut runs_that_went_on = 0;
    for seed in 0..20u64 {
        for (num_clients, l_buf_size, mean, std_dev) in
            [(2, 3, 50, 5), (2, 1, 1000, 0), (3, 4, 20, 30), (4, 2, 5, 5), (2, 3, 0, 0)]
        {
            let (_, reports, error) = random_run(num_clients, l_buf_size, mean, std_dev, seed, 300);
            match error {
                None => {
                    assert_eq!(reports.len(), 300);
                    runs_that_went_on += 1;
                }
                Some(error) => {
                    assert!(matches!(error, SimError::ProtocolViolation | SimError::Deadlock));
                }
            }
        }
    }
    assert!(runs_that_went_on >= 40);
}

#[test]
fn stalls_are_at_most_half_the_events_and_one() {
    for seed in 0..20u64 {
        for (l_buf_size, mean, std_dev) in
            [(3, 50, 5), (1, 1000, 0), (1, 50, 5), (2, 16, 0), (5, 200, 50)]
        {
            for steps in [1usize, 2, 3, 4, 7, 10, 50, 51, 200] {
                let (ss, reports, _) = random_run(2, l_buf_size, mean, std_dev, seed, steps);
                let processed = reports.len();
                let stalls = reports
                    .iter()
                    .filter(|report| matches!(report.outcome, StepOutcome::Stalled { .. }))
                    .count();
                let resumptions = reports
                    .iter()
                    .filter(|report| {
                        matches!(report.outcome, StepOutcome::Received { resumed: true, .. })
                    })
                    .count();
                let stalled_now =
                    (0..2).filter(|&client_id| ss.client(client_id).unwrap().is_stalled()).count();
                assert_eq!(stalls, resumptions + stalled_now);
                assert!(2 * stalls <= processed + stalled_now);
                assert!(stalls <= processed / 2 + 1);
                if processed % 2 == 1 || stalled_now < 2 {
                    assert!(stalls <= (processed + 1) / 2);
                }
            }
        }
    }
}

#[test]
fn two_stalls_in_two_events_exceed_half_the_events() {
    let (ss, reports, error) = random_run(2, 1, 1000, 0, 0, 2);
    assert_eq!(error, None);
    assert_eq!(reports.len(), 2);
    assert!(reports.iter().all(|report| matches!(report.outcome, StepOutcome::Stalled { .. })));
    assert!(ss.client(0).unwrap().is_stalled());
    assert!(ss.client(1).unwrap().is_stalled());
}

#[test]
fn an_arrival_moves_the_awaited_cycle_only_over_cycles_without_entries() {
    for seed in 0..20u64 {
        let normal = Normal::new(40.0f32, 30.0f32).unwrap();
        let mut rng = StdRng::seed_from_u64(seed);
        let samples: Vec<isize> = (0..6).map(|_| normal.sample(&mut rng) as isize).collect();
        let mut ss = init_state(&args(3), &samples).unwrap();
        for _ in 0..200 {
            while ss.latency_samples_in_store() < ss.latency_samples_wanted() {
                ss.supply_latency_sample(normal.sample(&mut rng) as isize);
            }
            let pending_before = ss.num_pending_events();
            let report = match run_sim_until_next_event(&mut ss) {
                Ok(report) => report,
                Err(_) => break,
            };
            if let StepOutcome::Received { first_cleared, next_awaited, resumed } = report.outcome {
                let dest = match report.event.e_type {
                    EventType::MessageArrival(msg) => msg.dest_client,
                    EventType::NextUpdateCycle(_) => unreachable!(),
                };
                let client = ss.client(dest).unwrap();
                assert!(first_cleared <= next_awaited);
                assert_eq!(client.next_update_cycle_that_we_are_waiting_on(), next_awaited);
                for cycle in first_cleared..next_awaited {
                    assert!(!client.is_waiting_on_cycle(cycle));
                }
                if client.num_waiting_on() > 0 {
                    assert!(client.is_waiting_on_cycle(next_awaited));
                } else {
                    assert_eq!(next_awaited, first_cleared + 1);
                }
                assert_eq!(ss.num_pending_events(), pending_before - 1 + resumed as usize);
            }
        }
    }
}
