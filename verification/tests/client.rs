use lockstep_sim::{get_client_ids_that_are_not_ours, Acknowledgement, Client, SimError};

#[test]
fn peers_are_all_ids_but_ours() {
    assert_eq!(get_client_ids_that_are_not_ours(2, 0), vec![1]);
    assert_eq!(get_client_ids_that_are_not_ours(2, 1), vec![0]);
    assert_eq!(get_client_ids_that_are_not_ours(5, 2), vec![0, 1, 3, 4]);
    assert_eq!(get_client_ids_that_are_not_ours(4, 3), vec![0, 1, 2]);
    assert_eq!(get_client_ids_that_are_not_ours(1, 0), Vec::<usize>::new());
    assert_eq!(get_client_ids_that_are_not_ours(0, 0), Vec::<usize>::new());
    assert_eq!(get_client_ids_that_are_not_ours(3, 7), vec![0, 1, 2]);
}

#[test]
fn a_new_client_runs_and_waits_for_nothing() {
    let client = Client::new(1, 3);
    assert_eq!(client.client_id(), 1);
    assert_eq!(client.curr_update_cycle(), 0);
    assert_eq!(client.lockstep_buffer_size(), 3);
    assert_eq!(client.next_update_cycle_that_we_are_waiting_on(), 0);
    assert_eq!(client.num_waiting_on(), 0);
    assert!(!client.is_stalled());
    assert!(client.at_buffer_limit());
    assert!(!client.is_waiting_on_cycle(0));
}

#[test]
fn adding_a_cycle_adds_one_entry_for_each_peer() {
    let mut client = Client::new(1, 3);
    client.add_cycle_to_waiting_on(0, 4);
    assert_eq!(client.num_waiting_on(), 3);
    assert!(client.is_waiting_on(0, 0));
    assert!(!client.is_waiting_on(1, 0));
    assert!(client.is_waiting_on(2, 0));
    assert!(client.is_waiting_on(3, 0));
    assert!(!client.is_waiting_on(4, 0));
    assert!(!client.is_waiting_on(0, 1));
    assert!(client.is_waiting_on_cycle(0));
    assert!(!client.is_waiting_on_cycle(1));
    client.add_cycle_to_waiting_on(1, 4);
    assert_eq!(client.num_waiting_on(), 6);
    assert!(client.is_waiting_on_cycle(1));
}

#[test]
fn a_notice_that_is_not_awaited_is_a_protocol_violation() {
    let mut client = Client::new(0, 3);
    client.add_cycle_to_waiting_on(0, 2);
    assert_eq!(client.acknowledge(1, 1), Err(SimError::ProtocolViolation));
    assert_eq!(client.acknowledge(0, 0), Err(SimError::ProtocolViolation));
    assert_eq!(client.num_waiting_on(), 1);
    assert_eq!(client.next_update_cycle_that_we_are_waiting_on(), 0);
    assert!(client.acknowledge(1, 0).is_ok());
    assert_eq!(client.acknowledge(1, 0), Err(SimError::ProtocolViolation));
}

#[test]
fn the_awaited_cycle_stops_at_the_lowest_cycle_with_an_entry() {
    let mut client = Client::new(0, 3);
    client.add_cycle_to_waiting_on(0, 2);
    client.add_cycle_to_waiting_on(1, 2);
    client.add_cycle_to_waiting_on(2, 2);
    assert_eq!(
        client.acknowledge(1, 1),
        Ok(Acknowledgement { first_cleared: 0, next_awaited: 0, resumed: false })
    );
    assert_eq!(client.next_update_cycle_that_we_are_waiting_on(), 0);
    assert_eq!(
        client.acknowledge(1, 0),
        Ok(Acknowledgement { first_cleared: 0, next_awaited: 2, resumed: false })
    );
    assert_eq!(client.next_update_cycle_that_we_are_waiting_on(), 2);
    assert_eq!(client.num_waiting_on(), 1);
    assert!(client.is_waiting_on(1, 2));
}

#[test]
fn the_awaited_cycle_passes_cycles_that_never_had_an_entry() {
    let mut client = Client::new(0, 7);
    client.add_cycle_to_waiting_on(2, 2);
    client.add_cycle_to_waiting_on(7, 2);
    assert_eq!(
        client.acknowledge(1, 2),
        Ok(Acknowledgement { first_cleared: 0, next_awaited: 7, resumed: false })
    );
}

#[test]
fn each_peer_must_be_heard_before_a_cycle_is_gathered() {
    let mut client = Client::new(1, 2);
    client.add_cycle_to_waiting_on(0, 3);
    client.add_cycle_to_waiting_on(1, 3);
    assert_eq!(
        client.acknowledge(2, 0),
        Ok(Acknowledgement { first_cleared: 0, next_awaited: 0, resumed: false })
    );
    assert_eq!(
        client.acknowledge(0, 0),
        Ok(Acknowledgement { first_cleared: 0, next_awaited: 1, resumed: false })
    );
}

#[test]
fn an_emptied_wait_set_moves_the_awaited_cycle_on_by_one() {
    let mut client = Client::new(0, 5);
    client.add_cycle_to_waiting_on(5, 2);
    assert_eq!(
        client.acknowledge(1, 5),
        Ok(Acknowledgement { first_cleared: 0, next_awaited: 1, resumed: false })
    );
    assert_eq!(client.num_waiting_on(), 0);
    assert_eq!(client.next_update_cycle_that_we_are_waiting_on(), 1);
}

#[test]
fn a_stalled_client_is_resumed_when_its_awaited_cycle_moves() {
    let mut client = Client::new(0, 1);
    client.add_cycle_to_waiting_on(0, 3);
    assert!(client.at_buffer_limit());
    client.stall();
    assert!(client.is_stalled());
    assert_eq!(
        client.acknowledge(2, 0),
        Ok(Acknowledgement { first_cleared: 0, next_awaited: 0, resumed: false })
    );
    assert!(client.is_stalled());
    assert_eq!(
        client.acknowledge(1, 0),
        Ok(Acknowledgement { first_cleared: 0, next_awaited: 1, resumed: true })
    );
    assert!(!client.is_stalled());
    assert!(!client.at_buffer_limit());
}

#[test]
fn advancing_completes_a_cycle_and_waits_for_the_target_cycle() {
    let mut client = Client::new(0, 3);
    client.add_cycle_to_waiting_on(0, 2);
    client.acknowledge(1, 0).unwrap();
    assert_eq!(client.next_update_cycle_that_we_are_waiting_on(), 1);
    client.advance(2);
    assert_eq!(client.curr_update_cycle(), 1);
    assert_eq!(client.num_waiting_on(), 1);
    assert!(client.is_waiting_on(1, 4));
    assert!(client.at_buffer_limit());
}

#[test]
fn an_awaited_cycle_that_cannot_be_counted_is_an_overflow() {
    let mut client = Client::new(0, usize::MAX);
    client.add_cycle_to_waiting_on(usize::MAX, 2);
    client.add_cycle_to_waiting_on(usize::MAX, 2);
    assert_eq!(
        client.acknowledge(1, usize::MAX),
        Ok(Acknowledgement { first_cleared: 0, next_awaited: usize::MAX, resumed: false })
    );
    assert_eq!(client.acknowledge(1, usize::MAX), Err(SimError::Overflow));
    assert_eq!(client.num_waiting_on(), 1);
    assert_eq!(client.next_update_cycle_that_we_are_waiting_on(), usize::MAX);
}
