//! The simulation as a transition system over mathematical values.
//!
//! A `SimView` is everything that decides how a run goes on: the clock, the
//! pending events in delivery order, the delays not yet used, and every
//! client. `SimView::initial` is the state in which a run starts and
//! `SimView::step` is one step of it. Both are total functions: same state,
//! same step.

use crate::client::{others, ClientView, WaitingClientUpdateCycle};
use crate::error::SimError;
use crate::event::{ClientID, EventType, Message, UpcomingEvent, UPDATE_CYCLE_FREQ};
use crate::event_queue::{schedule, sorted_by_time};
use vstd::multiset::Multiset;
use vstd::prelude::*;

verus! {

/// What one processed event did.
#[derive(Clone, Copy, Debug, PartialEq, Eq, Structural)]
pub enum StepOutcome {
    /// The tick found its client at the buffer limit, with `cycle`
    /// completed: the client stalls, sends nothing, and ticks no more until
    /// a notice resumes it.
    Stalled { cycle: usize },
    /// The tick found its client with `completed_cycle` completed and took
    /// it one cycle further: the client has announced `target_cycle` to
    /// every peer, waits for their notices for it, and will tick again.
    Advanced { completed_cycle: usize, target_cycle: usize },
    /// The message was taken in. Its destination has now gathered every
    /// cycle from `first_cleared` up to `next_awaited`, exclusive, and
    /// awaits `next_awaited`. If `resumed`, it was stalled and its tick is
    /// due at once.
    Received { first_cleared: usize, next_awaited: usize, resumed: bool },
}

/// The event that a step processed, and what it did.
#[derive(Clone, Copy, Debug, PartialEq, Eq, Structural)]
pub struct StepReport {
    pub event: UpcomingEvent,
    pub outcome: StepOutcome,
}

/// The wait-set entry that the arrival of `msg` clears.
pub open spec fn wait_for(msg: Message) -> WaitingClientUpdateCycle {
    WaitingClientUpdateCycle {
        from_client: msg.sending_client,
        update_cycle: msg.target_update_cycle,
    }
}

/// The clock with what it owns.
#[verifier::ext_equal]
pub struct WorldView {
    /// The simulated time, in milliseconds.
    pub ms_elapsed: usize,
    /// The pending events, in delivery order.
    pub events: Seq<UpcomingEvent>,
    /// The delays that the latency model has in store, oldest first.
    pub delays: Seq<usize>,
}

impl WorldView {
    /// The world with `event` scheduled.
    pub open spec fn with_event(self, event: UpcomingEvent) -> WorldView {
        WorldView { events: schedule(self.events, event), ..self }
    }

    /// The world with a tick of `client_id` scheduled at `time`.
    pub open spec fn with_tick(self, client_id: ClientID, time: usize) -> WorldView {
        self.with_event(
            UpcomingEvent { event_trigger_time: time, e_type: EventType::NextUpdateCycle(client_id) },
        )
    }

    /// The world with the earliest event taken out and the clock set to its
    /// trigger time.
    pub open spec fn at_next_event(self) -> WorldView {
        WorldView {
            ms_elapsed: self.events.first().event_trigger_time,
            events: self.events.drop_first(),
            ..self
        }
    }

    /// Holds when `count` messages can be sent now: the latency model has a
    /// delay for each, and each arrival time can be counted.
    pub open spec fn can_send(self, count: nat) -> bool {
        &&& count <= self.delays.len()
        &&& forall|k: int| 0 <= k < count ==> self.ms_elapsed + self.delays[k] <= usize::MAX
    }

    /// The world after `msg` has been sent: it arrives after the oldest
    /// delay in store, which is used up.
    pub open spec fn message_sent(self, msg: Message) -> WorldView {
        WorldView {
            delays: self.delays.drop_first(),
            ..self
        }.with_event(
            UpcomingEvent {
                event_trigger_time: (self.ms_elapsed + self.delays.first()) as usize,
                e_type: EventType::MessageArrival(msg),
            },
        )
    }

    /// The world after `client_id` has sent its notice for `cycle` to each
    /// of `peers`, one message after the other.
    pub open spec fn notices_sent(self, client_id: ClientID, cycle: usize, peers: Seq<ClientID>)
        -> WorldView
        decreases peers.len(),
    {
        if peers.len() == 0 {
            self
        } else {
            self.notices_sent(client_id, cycle, peers.drop_last()).message_sent(
                Message {
                    target_update_cycle: cycle,
                    sending_client: client_id,
                    dest_client: peers.last(),
                },
            )
        }
    }

    /// The world with a first tick scheduled, at the current time, for each
    /// client below `num_clients`, in ascending order.
    pub open spec fn ticking(self, num_clients: nat) -> WorldView
        decreases num_clients,
    {
        if num_clients == 0 {
            self
        } else {
            self.ticking((num_clients - 1) as nat).with_tick(
                (num_clients - 1) as usize,
                self.ms_elapsed,
            )
        }
    }
}

/// A simulation as the contracts see it.
#[verifier::ext_equal]
pub struct SimView {
    pub world: WorldView,
    pub clients: Seq<ClientView>,
}

/// Holds when every client is stalled.
pub open spec fn all_stalled(clients: Seq<ClientView>) -> bool {
    forall|i: int| 0 <= i < clients.len() ==> (#[trigger] clients[i]).is_stalled
}

/// Holds when none of `events` is due before `now` and each acts on a
/// client below `num_clients`.
pub open spec fn events_valid(events: Seq<UpcomingEvent>, now: usize, num_clients: nat) -> bool {
    forall|k: int|
        0 <= k < events.len() ==> {
            &&& now <= (#[trigger] events[k]).event_trigger_time
            &&& events[k].e_type.subject() < num_clients
        }
}

/// Holds when the client at each position `i` has the id `i` and is
/// well-formed.
pub open spec fn clients_valid(clients: Seq<ClientView>) -> bool {
    forall|i: int|
        0 <= i < clients.len() ==> {
            &&& (#[trigger] clients[i]).client_id == i
            &&& clients[i].wf()
        }
}

/// The clients of a fresh simulation: none has completed a cycle, none
/// waits for anything, all run.
pub open spec fn fresh_clients(num_clients: nat, l_buf_size: usize) -> Seq<ClientView> {
    Seq::new(
        num_clients,
        |i: int|
            ClientView {
                client_id: i as usize,
                curr_update_cycle: 0,
                lockstep_buffer_size: l_buf_size,
                waiting_on: Multiset::empty(),
                next_awaited: 0,
                is_stalled: false,
            },
    )
}

/// How many peers each of `num_clients` clients has.
pub open spec fn peers_of_each(num_clients: nat) -> nat {
    if num_clients == 0 {
        0
    } else {
        (num_clients - 1) as nat
    }
}

/// How many delays the seeding of a simulation uses: one for each of the
/// `l_buf_size` seeded cycles, each client and each of its peers.
pub open spec fn delays_to_seed(num_clients: nat, l_buf_size: nat) -> nat {
    l_buf_size * (num_clients * peers_of_each(num_clients))
}

impl SimView {
    /// The invariant of a simulation: the events stand in delivery order,
    /// none is due before the current time, each acts on a client that
    /// exists, and client `i` has the id `i` and is well-formed.
    pub open spec fn wf(self) -> bool {
        &&& self.clients.len() <= usize::MAX
        &&& sorted_by_time(self.world.events)
        &&& events_valid(self.world.events, self.world.ms_elapsed, self.clients.len())
        &&& clients_valid(self.clients)
    }

    /// The simulation with client `client_id` replaced by `client`.
    pub open spec fn with_client(self, client_id: ClientID, client: ClientView) -> SimView {
        SimView { clients: self.clients.update(client_id as int, client), ..self }
    }

    /// The simulation with `delays` added to the latency model's store,
    /// behind the delays that are there already.
    pub open spec fn with_delays(self, delays: Seq<usize>) -> SimView {
        SimView { world: WorldView { delays: self.world.delays + delays, ..self.world }, ..self }
    }

    /// The simulation after `client_id` has announced `cycle`: it has sent
    /// its notice for that cycle to every peer, and waits for theirs.
    pub open spec fn announced(self, client_id: ClientID, cycle: usize) -> SimView {
        SimView {
            world: self.world.notices_sent(
                client_id,
                cycle,
                others(self.clients.len(), client_id),
            ),
            clients: self.clients.update(
                client_id as int,
                self.clients[client_id as int].waiting_also_on(cycle, self.clients.len()),
            ),
        }
    }

    /// The simulation after each client below `senders` has announced
    /// `cycle`, in ascending order.
    pub open spec fn seeded_round(self, cycle: usize, senders: nat) -> SimView
        decreases senders,
    {
        if senders == 0 {
            self
        } else {
            self.seeded_round(cycle, (senders - 1) as nat).announced((senders - 1) as usize, cycle)
        }
    }

    /// The simulation after every client has announced each cycle below
    /// `cycles`, cycle by cycle.
    pub open spec fn seeded(self, cycles: nat) -> SimView
        decreases cycles,
    {
        if cycles == 0 {
            self
        } else {
            self.seeded((cycles - 1) as nat).seeded_round(
                (cycles - 1) as usize,
                self.clients.len(),
            )
        }
    }

    /// The state in which a run starts. The clock stands at zero; every
    /// client has announced the cycles below `l_buf_size`, as if it had
    /// completed them already, so that the first real cycles find notices on
    /// their way; and every client's first tick is due at once, behind the
    /// seeded messages that are due at once too.
    pub open spec fn initial(num_clients: nat, l_buf_size: usize, delays: Seq<usize>) -> SimView {
        let seeded = (SimView {
            world: WorldView { ms_elapsed: 0, events: Seq::empty(), delays },
            clients: fresh_clients(num_clients, l_buf_size),
        }).seeded(l_buf_size as nat);
        SimView { world: seeded.world.ticking(num_clients), ..seeded }
    }

    /// Why a tick of `client_id` cannot be processed now, if it cannot. A
    /// tick that stalls its client always can.
    pub open spec fn update_cycle_error(self, client_id: ClientID) -> Option<SimError> {
        let client = self.clients[client_id as int];
        let peers = others(self.clients.len(), client_id);
        if client.at_buffer_limit() {
            None
        } else if self.world.delays.len() < peers.len() {
            Some(SimError::MissingLatencySample)
        } else if client.target_cycle() > usize::MAX || self.world.ms_elapsed + UPDATE_CYCLE_FREQ
            > usize::MAX || !self.world.can_send(peers.len()) {
            Some(SimError::Overflow)
        } else {
            None
        }
    }

    /// The simulation after the tick of `client_id`. At the buffer limit the
    /// client stalls, and nothing else happens. Otherwise it completes its
    /// next cycle, announces the target cycle, and its next tick is
    /// scheduled one update period from now.
    pub open spec fn update_cycle_handled(self, client_id: ClientID) -> SimView {
        let client = self.clients[client_id as int];
        if client.at_buffer_limit() {
            self.with_client(client_id, client.stalled())
        } else {
            let completed = self.with_client(
                client_id,
                ClientView {
                    curr_update_cycle: (client.curr_update_cycle + 1) as usize,
                    ..client
                },
            );
            let announced = completed.announced(client_id, client.target_cycle() as usize);
            SimView {
                world: announced.world.with_tick(
                    client_id,
                    (self.world.ms_elapsed + UPDATE_CYCLE_FREQ) as usize,
                ),
                ..announced
            }
        }
    }

    /// What the tick of `client_id` reports.
    pub open spec fn update_cycle_outcome(self, client_id: ClientID) -> StepOutcome {
        let client = self.clients[client_id as int];
        if client.at_buffer_limit() {
            StepOutcome::Stalled { cycle: client.curr_update_cycle }
        } else {
            StepOutcome::Advanced {
                completed_cycle: client.curr_update_cycle,
                target_cycle: client.target_cycle() as usize,
            }
        }
    }

    /// Why the arrival of `msg` cannot be processed, if it cannot.
    pub open spec fn message_error(self, msg: Message) -> Option<SimError> {
        self.clients[msg.dest_client as int].acknowledge_error(wait_for(msg))
    }

    /// The simulation after `msg` has arrived: its destination has taken the
    /// notice in, and if that resumed it, its tick is scheduled at the
    /// current time.
    pub open spec fn message_handled(self, msg: Message) -> SimView {
        let before = self.clients[msg.dest_client as int];
        let after = before.acknowledged(wait_for(msg));
        let received = self.with_client(msg.dest_client, after);
        if before.is_stalled && !after.is_stalled {
            SimView {
                world: received.world.with_tick(msg.dest_client, self.world.ms_elapsed),
                ..received
            }
        } else {
            received
        }
    }

    /// What the arrival of `msg` reports.
    pub open spec fn message_outcome(self, msg: Message) -> StepOutcome {
        let before = self.clients[msg.dest_client as int];
        let after = before.acknowledged(wait_for(msg));
        StepOutcome::Received {
            first_cleared: before.next_awaited,
            next_awaited: after.next_awaited,
            resumed: before.is_stalled && !after.is_stalled,
        }
    }

    /// The simulation with the clock advanced to the earliest event, and
    /// that event taken out of the queue.
    pub open spec fn at_next_event(self) -> SimView {
        SimView { world: self.world.at_next_event(), ..self }
    }

    /// Why the simulation cannot take a step, if it cannot.
    pub open spec fn step_error(self) -> Option<SimError> {
        if self.world.events.len() == 0 {
            if all_stalled(self.clients) {
                Some(SimError::Deadlock)
            } else {
                Some(SimError::EmptyQueue)
            }
        } else {
            match self.world.events.first().e_type {
                EventType::NextUpdateCycle(client_id) => self.at_next_event().update_cycle_error(
                    client_id,
                ),
                EventType::MessageArrival(msg) => self.at_next_event().message_error(msg),
            }
        }
    }

    /// The simulation after one step: the earliest event has been taken
    /// out, the clock stands at its trigger time, and the event has been
    /// handled. A step that cannot be taken changes nothing.
    pub open spec fn step(self) -> SimView {
        if self.step_error().is_some() {
            self
        } else {
            match self.world.events.first().e_type {
                EventType::NextUpdateCycle(client_id) => self.at_next_event().update_cycle_handled(
                    client_id,
                ),
                EventType::MessageArrival(msg) => self.at_next_event().message_handled(msg),
            }
        }
    }

    /// What one step returns: the error, or the event with what it did.
    pub open spec fn step_result(self) -> Result<StepReport, SimError> {
        match self.step_error() {
            Some(error) => Err(error),
            None => {
                let event = self.world.events.first();
                Ok(
                    StepReport {
                        event,
                        outcome: match event.e_type {
                            EventType::NextUpdateCycle(client_id) => self.at_next_event(
                            ).update_cycle_outcome(client_id),
                            EventType::MessageArrival(msg) => self.at_next_event().message_outcome(
                                msg,
                            ),
                        },
                    },
                )
            },
        }
    }

    /// The simulation after the first `steps` steps of a run from this
    /// state. Before its `k`-th step, counted from zero, the run supplies the
    /// delays `supplies[k]` to the latency model.
    pub open spec fn after(self, supplies: Seq<Seq<usize>>, steps: nat) -> SimView
        decreases steps,
    {
        if steps == 0 {
            self
        } else {
            self.after(supplies, (steps - 1) as nat).with_delays(supplies[steps - 1]).step()
        }
    }

    /// What the `k`-th step of that run returns.
    pub open spec fn result_of(self, supplies: Seq<Seq<usize>>, k: nat) -> Result<
        StepReport,
        SimError,
    > {
        self.after(supplies, k).with_delays(supplies[k as int]).step_result()
    }

    /// Holds when that run has at least `steps` steps and each of the first
    /// `steps` succeeds.
    pub open spec fn runs(self, supplies: Seq<Seq<usize>>, steps: nat) -> bool {
        &&& steps <= supplies.len()
        &&& forall|k: nat| k < steps ==> (#[trigger] self.result_of(supplies, k)) is Ok
    }

    /// How many delays the next step uses: one for each peer, if the
    /// earliest event is a tick that does not stall its client; otherwise
    /// none.
    pub open spec fn delays_wanted(self) -> nat {
        if self.world.events.len() == 0 {
            0
        } else {
            match self.world.events.first().e_type {
                EventType::NextUpdateCycle(client_id) => {
                    if self.clients[client_id as int].at_buffer_limit() {
                        0
                    } else {
                        others(self.clients.len(), client_id).len()
                    }
                },
                EventType::MessageArrival(msg) => 0,
            }
        }
    }
}

} // verus!
