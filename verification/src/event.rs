//! The occurrences that the simulator schedules and delivers.

use vstd::prelude::*;

verus! {

/// Identifies a participant. Clients are numbered from zero.
pub type ClientID = usize;

/// Update cycles per second of simulated time.
pub const FPS: usize = 60;

/// Simulated milliseconds between two update cycles of one client.
pub const UPDATE_CYCLE_FREQ: usize = 1000 / FPS;

/// A notice that `sending_client` has reached `target_update_cycle`, on its
/// way to `dest_client`.
#[derive(Clone, Copy, Debug, PartialEq, Eq, Structural)]
pub struct Message {
    pub target_update_cycle: usize,
    pub sending_client: ClientID,
    pub dest_client: ClientID,
}

impl Message {
    pub fn new(target_update_cycle: usize, sending_client: ClientID, dest_client: ClientID) -> (msg:
        Message)
        ensures
            msg == (Message { target_update_cycle, sending_client, dest_client }),
    {
        Message { target_update_cycle, sending_client, dest_client }
    }
}

/// What happens when an event comes due.
#[derive(Clone, Copy, Debug, PartialEq, Eq, Structural)]
pub enum EventType {
    /// The periodic tick of the named client.
    NextUpdateCycle(ClientID),
    /// A message reaches its destination.
    MessageArrival(Message),
}

/// An event together with the simulated time at which it comes due.
#[derive(Clone, Copy, Debug, PartialEq, Eq, Structural)]
pub struct UpcomingEvent {
    pub event_trigger_time: usize,
    pub e_type: EventType,
}

impl EventType {
    /// The client whose state the event acts on: the ticking client, or the
    /// destination of the message.
    pub open spec fn subject(self) -> ClientID {
        match self {
            EventType::NextUpdateCycle(client_id) => client_id,
            EventType::MessageArrival(msg) => msg.dest_client,
        }
    }
}

} // verus!
