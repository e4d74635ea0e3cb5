use lockstep_sim::{EventQueue, EventType, Message, UpcomingEvent};

fn tick(time: usize, client_id: usize) -> UpcomingEvent {
    UpcomingEvent { event_trigger_time: time, e_type: EventType::NextUpdateCycle(client_id) }
}

fn arrival(time: usize, cycle: usize, from: usize, to: usize) -> UpcomingEvent {
    UpcomingEvent {
        event_trigger_time: time,
        e_type: EventType::MessageArrival(Message::new(cycle, from, to)),
    }
}

#[test]
fn new_queue_is_empty() {
    let mut queue = EventQueue::new();
    assert!(queue.is_empty());
    assert_eq!(queue.len(), 0);
    assert_eq!(queue.peek_earliest(), None);
    assert_eq!(queue.pop_earliest(), None);
    assert!(queue.is_empty());
}

#[test]
fn events_leave_in_order_of_trigger_time() {
    let mut queue = EventQueue::new();
    queue.push(tick(30, 0));
    queue.push(arrival(10, 4, 0, 1));
    queue.push(tick(20, 1));
    queue.push(arrival(5, 5, 1, 0));
    assert_eq!(queue.len(), 4);
    assert_eq!(queue.peek_earliest(), Some(arrival(5, 5, 1, 0)));
    assert_eq!(queue.len(), 4);
    assert_eq!(queue.pop_earliest(), Some(arrival(5, 5, 1, 0)));
    assert_eq!(queue.pop_earliest(), Some(arrival(10, 4, 0, 1)));
    assert_eq!(queue.pop_earliest(), Some(tick(20, 1)));
    assert_eq!(queue.pop_earliest(), Some(tick(30, 0)));
    assert_eq!(queue.pop_earliest(), None);
}

#[test]
fn events_due_at_the_same_time_leave_in_the_order_they_came() {
    let mut queue = EventQueue::new();
    queue.push(tick(7, 2));
    queue.push(arrival(7, 1, 0, 1));
    queue.push(tick(3, 9));
    queue.push(tick(7, 0));
    queue.push(arrival(7, 1, 1, 0));
    assert_eq!(queue.pop_earliest(), Some(tick(3, 9)));
    assert_eq!(queue.pop_earliest(), Some(tick(7, 2)));
    assert_eq!(queue.pop_earliest(), Some(arrival(7, 1, 0, 1)));
    assert_eq!(queue.pop_earliest(), Some(tick(7, 0)));
    assert_eq!(queue.pop_earliest(), Some(arrival(7, 1, 1, 0)));
    assert!(queue.is_empty());
}

#[test]
fn pushes_and_pops_may_alternate() {
    let mut queue = EventQueue::new();
    queue.push(tick(16, 0));
    queue.push(tick(0, 1));
    assert_eq!(queue.pop_earliest(), Some(tick(0, 1)));
    queue.push(tick(16, 1));
    queue.push(tick(usize::MAX, 3));
    queue.push(tick(0, 4));
    assert_eq!(queue.pop_earliest(), Some(tick(0, 4)));
    assert_eq!(queue.pop_earliest(), Some(tick(16, 0)));
    assert_eq!(queue.pop_earliest(), Some(tick(16, 1)));
    assert_eq!(queue.pop_earliest(), Some(tick(usize::MAX, 3)));
    assert_eq!(queue.pop_earliest(), None);
}

#[test]
fn message_new_fills_the_fields() {
    let msg = Message::new(4, 0, 1);
    assert_eq!(msg.target_update_cycle, 4);
    assert_eq!(msg.sending_client, 0);
    assert_eq!(msg.dest_client, 1);
    assert_eq!(msg, Message { target_update_cycle: 4, sending_client: 0, dest_client: 1 });
}
