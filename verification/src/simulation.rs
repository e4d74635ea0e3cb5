//! The simulation itself: the clock with its event queue and latency model,
//! the clients, and the dispatcher that takes one event at a time.

use crate::arg_parsing::ProgArgs;
use crate::client::{get_client_ids_that_are_not_ours, lemma_others, others, Client};
use crate::error::SimError;
use crate::event::{ClientID, EventType, Message, UpcomingEvent, UPDATE_CYCLE_FREQ};
use crate::event_queue::{sorted_by_time, EventQueue};
use crate::latency::{clamp_delay, clamp_delays, LatencyState};
use crate::model::{
    all_stalled, delays_to_seed, fresh_clients, peers_of_each, SimView, StepOutcome, StepReport,
    WorldView,
};
use crate::seeding::{lemma_initial_wf, lemma_seeded, lemma_seeded_round, seedable};
use crate::laws::{law_initial_waits, law_step_sets_clock};
use crate::wellformed::lemma_step_wf;
use vstd::prelude::*;

verus! {

/// How many clients `init_state` puts into a simulation.
pub const NUM_CLIENTS: usize = 2;

/// The clock, the pending events and the latency model.
struct WorldState {
    ms_elapsed: usize,
    upcoming_events: EventQueue,
    ls: LatencyState,
}

impl View for WorldState {
    type V = WorldView;

    closed spec fn view(&self) -> WorldView {
        WorldView {
            ms_elapsed: self.ms_elapsed,
            events: self.upcoming_events@,
            delays: self.ls@,
        }
    }
}

impl WorldState {
    fn push_event(&mut self, event: UpcomingEvent)
        requires
            sorted_by_time(old(self)@.events),
        ensures
            final(self)@ == old(self)@.with_event(event),
            sorted_by_time(final(self)@.events),
    {
        self.upcoming_events.push(event);
    }

    /// Takes the earliest event out of the queue and sets the clock to its
    /// trigger time.
    fn get_next_event(&mut self) -> (next_event: UpcomingEvent)
        requires
            sorted_by_time(old(self)@.events),
            old(self)@.events.len() > 0,
        ensures
            next_event == old(self)@.events.first(),
            final(self)@ == old(self)@.at_next_event(),
            sorted_by_time(final(self)@.events),
    {
        let next_event = self.upcoming_events.pop_earliest().unwrap();
        self.ms_elapsed = next_event.event_trigger_time;
        next_event
    }

    /// Why `count` messages could not be sent at the time `now`, if they
    /// could not: the latency model lacks a delay for one of them, or one of
    /// them would arrive later than can be counted.
    fn send_error(&self, now: usize, count: usize) -> (error: Option<SimError>)
        ensures
            error == (if self@.delays.len() < count {
                Some(SimError::MissingLatencySample)
            } else if !(WorldView { ms_elapsed: now, ..self@ }).can_send(count as nat) {
                Some(SimError::Overflow)
            } else {
                None
            }),
    {
        if self.ls.available() < count {
            return Some(SimError::MissingLatencySample);
        }
        let mut k: usize = 0;
        while k < count
            invariant
                k <= count <= self@.delays.len(),
                forall|j: int| 0 <= j < k ==> now + self@.delays[j] <= usize::MAX,
            decreases count - k,
        {
            let delay: usize = self.ls.peek(k).unwrap();
            if now.checked_add(delay).is_none() {
                return Some(SimError::Overflow);
            }
            k = k + 1;
        }
        None
    }
}

/// Sends `msg`: it will arrive after the next delay of the latency model.
fn send_msg(msg: Message, ws: &mut WorldState)
    requires
        sorted_by_time(old(ws)@.events),
        old(ws)@.can_send(1),
    ensures
        final(ws)@ == old(ws)@.message_sent(msg),
        sorted_by_time(final(ws)@.events),
{
    let delay_of_msg: usize = ws.ls.gen_delay_of_msg().unwrap();
    let upcoming_event = UpcomingEvent {
        event_trigger_time: ws.ms_elapsed + delay_of_msg,
        e_type: EventType::MessageArrival(msg),
    };
    ws.push_event(upcoming_event);
}

fn add_event_for_next_update_cycle_start(
    ws: &mut WorldState,
    client_id: ClientID,
    time_of_next_update_cycle: usize,
)
    requires
        sorted_by_time(old(ws)@.events),
    ensures
        final(ws)@ == old(ws)@.with_tick(client_id, time_of_next_update_cycle),
        sorted_by_time(final(ws)@.events),
{
    let update_event = UpcomingEvent {
        event_trigger_time: time_of_next_update_cycle,
        e_type: EventType::NextUpdateCycle(client_id),
    };
    ws.push_event(update_event);
}

fn send_update_cycle_info_out_to_other_clients(
    ws: &mut WorldState,
    num_clients: usize,
    client_id: ClientID,
    target_update_cycle: usize,
)
    requires
        sorted_by_time(old(ws)@.events),
        old(ws)@.can_send(others(num_clients as nat, client_id).len()),
    ensures
        final(ws)@ == old(ws)@.notices_sent(
            client_id,
            target_update_cycle,
            others(num_clients as nat, client_id),
        ),
        sorted_by_time(final(ws)@.events),
        final(ws)@.ms_elapsed == old(ws)@.ms_elapsed,
        final(ws)@.delays == old(ws)@.delays.skip(
            others(num_clients as nat, client_id).len() as int,
        ),
{
    let peers = get_client_ids_that_are_not_ours(num_clients, client_id);
    let mut k: usize = 0;
    assert(peers@.take(0) == Seq::<ClientID>::empty());
    assert(ws@.delays.skip(0) == ws@.delays);
    while k < peers.len()
        invariant
            k <= peers@.len(),
            old(ws)@.can_send(peers@.len()),
            sorted_by_time(ws@.events),
            ws@ == old(ws)@.notices_sent(client_id, target_update_cycle, peers@.take(k as int)),
            ws@.ms_elapsed == old(ws)@.ms_elapsed,
            ws@.delays == old(ws)@.delays.skip(k as int),
        decreases peers@.len() - k,
    {
        let msg = Message::new(target_update_cycle, client_id, peers[k]);
        proof {
            assert(ws@.delays.first() == old(ws)@.delays[k as int]);
            assert(peers@.take(k + 1).drop_last() == peers@.take(k as int));
            assert(peers@.take(k + 1).last() == peers@[k as int]);
            assert(old(ws)@.delays.skip(k as int).drop_first() == old(ws)@.delays.skip(k + 1));
        }
        send_msg(msg, ws);
        k = k + 1;
    }
    assert(peers@.take(k as int) == peers@);
}

/// A simulation: the world and the clients in it.
pub struct SimState {
    ws: WorldState,
    clients: Vec<Client>,
}

impl View for SimState {
    type V = SimView;

    closed spec fn view(&self) -> SimView {
        SimView {
            world: self.ws@,
            clients: Seq::new(self.clients@.len(), |i: int| self.clients@[i]@),
        }
    }
}

impl SimState {
    /// The simulated time, in milliseconds.
    pub fn ms_elapsed(&self) -> (time: usize)
        ensures
            time == self@.world.ms_elapsed,
    {
        self.ws.ms_elapsed
    }

    pub fn num_clients(&self) -> (n: usize)
        ensures
            n == self@.clients.len(),
    {
        self.clients.len()
    }

    /// The client with the given id, if there is one.
    pub fn client(&self, client_id: ClientID) -> (client: Option<&Client>)
        ensures
            match client {
                Some(c) => client_id < self@.clients.len() && c@ == self@.clients[client_id as int],
                None => client_id >= self@.clients.len(),
            },
    {
        if client_id < self.clients.len() {
            Some(&self.clients[client_id])
        } else {
            None
        }
    }

    /// How many events are pending.
    pub fn num_pending_events(&self) -> (n: usize)
        ensures
            n == self@.world.events.len(),
    {
        self.ws.upcoming_events.len()
    }

    /// The event that the next step will deliver, if any is pending.
    pub fn next_event(&self) -> (next: Option<UpcomingEvent>)
        ensures
            next == (if self@.world.events.len() == 0 {
                None
            } else {
                Some(self@.world.events.first())
            }),
    {
        self.ws.upcoming_events.peek_earliest()
    }

    /// How many delays the latency model has in store.
    pub fn latency_samples_in_store(&self) -> (n: usize)
        ensures
            n == self@.world.delays.len(),
    {
        self.ws.ls.available()
    }

    /// How many delays the next step will use.
    pub fn latency_samples_wanted(&self) -> (n: usize)
        requires
            self@.wf(),
        ensures
            n == self@.delays_wanted(),
    {
        match self.ws.upcoming_events.peek_earliest() {
            Some(
                UpcomingEvent { event_trigger_time: _, e_type: EventType::NextUpdateCycle(client_id) },
            ) => {
                assert(self@.world.events[0].e_type.subject() == client_id);
                if self.clients[client_id].at_buffer_limit() {
                    0
                } else {
                    self.clients.len() - 1
                }
            },
            _ => 0,
        }
    }

    /// Hands one raw sample of the latency distribution to the latency
    /// model, which keeps the delay it stands for behind those it has in
    /// store.
    pub fn supply_latency_sample(&mut self, raw: isize)
        ensures
            final(self)@ == old(self)@.with_delays(seq![clamp_delay(raw)]),
            old(self)@.wf() ==> final(self)@.wf(),
    {
        self.ws.ls.supply_sample(raw);
        assert(self@.world.delays == old(self)@.world.delays + seq![clamp_delay(raw)]);
    }
}

/// Whether every one of `clients` is stalled.
fn all_clients_stalled(clients: &Vec<Client>) -> (stalled: bool)
    ensures
        stalled == all_stalled(Seq::new(clients@.len(), |i: int| clients@[i]@)),
{
    let ghost views = Seq::new(clients@.len(), |i: int| clients@[i]@);
    let mut i: usize = 0;
    while i < clients.len()
        invariant
            i <= clients@.len(),
            views == Seq::new(clients@.len(), |i: int| clients@[i]@),
            forall|j: int| 0 <= j < i ==> (#[trigger] views[j]).is_stalled,
        decreases clients@.len() - i,
    {
        if !clients[i].is_stalled() {
            assert(!views[i as int].is_stalled);
            return false;
        }
        i = i + 1;
    }
    true
}

/// Handles the tick of `client_id`, which is the earliest event.
fn handle_update_cycle_event(ss: &mut SimState, client_id: ClientID) -> (result: Result<
    StepOutcome,
    SimError,
>)
    requires
        old(ss)@.wf(),
        old(ss)@.world.events.len() > 0,
        old(ss)@.world.events.first().e_type == EventType::NextUpdateCycle(client_id),
    ensures
        final(ss)@ == old(ss)@.step(),
        result == (match old(ss)@.step_result() {
            Ok(report) => Ok::<StepOutcome, SimError>(report.outcome),
            Err(error) => Err::<StepOutcome, SimError>(error),
        }),
{
    let num_clients: usize = ss.clients.len();
    let curr_sim_time: usize = ss.ws.upcoming_events.peek_earliest().unwrap().event_trigger_time;
    let ghost before = ss@;
    let ghost due = before.at_next_event();
    assert(before.world.events[0].e_type.subject() == client_id);

    let completed_cycle: usize = ss.clients[client_id].curr_update_cycle();
    if ss.clients[client_id].at_buffer_limit() {
        ss.ws.get_next_event();
        ss.clients[client_id].stall();
        assert(ss@ == due.update_cycle_handled(client_id));
        return Ok(StepOutcome::Stalled { cycle: completed_cycle });
    }
    let num_peers: usize = num_clients - 1;
    assert(num_peers == others(num_clients as nat, client_id).len());
    match ss.ws.send_error(curr_sim_time, num_peers) {
        Some(SimError::MissingLatencySample) => {
            return Err(SimError::MissingLatencySample);
        },
        Some(error) => {
            return Err(SimError::Overflow);
        },
        None => {},
    }
    assert(due.world.can_send(num_peers as nat));
    let lockstep_buffer_size: usize = ss.clients[client_id].lockstep_buffer_size();
    let msg_target_cycle: usize = match completed_cycle.checked_add(1) {
        Some(next_cycle) => match next_cycle.checked_add(lockstep_buffer_size) {
            Some(target) => target,
            None => {
                return Err(SimError::Overflow);
            },
        },
        None => {
            return Err(SimError::Overflow);
        },
    };
    let time_of_next_update_cycle: usize = match curr_sim_time.checked_add(UPDATE_CYCLE_FREQ) {
        Some(time) => time,
        None => {
            return Err(SimError::Overflow);
        },
    };

    ss.ws.get_next_event();
    send_update_cycle_info_out_to_other_clients(
        &mut ss.ws,
        num_clients,
        client_id,
        msg_target_cycle,
    );
    ss.clients[client_id].advance(num_clients);
    add_event_for_next_update_cycle_start(&mut ss.ws, client_id, time_of_next_update_cycle);
    assert(ss@ == due.update_cycle_handled(client_id));
    Ok(StepOutcome::Advanced { completed_cycle, target_cycle: msg_target_cycle })
}

/// Handles the arrival of `msg`, which is the earliest event.
fn handle_msg_received_event(ss: &mut SimState, msg: Message) -> (result: Result<
    StepOutcome,
    SimError,
>)
    requires
        old(ss)@.wf(),
        old(ss)@.world.events.len() > 0,
        old(ss)@.world.events.first().e_type == EventType::MessageArrival(msg),
    ensures
        final(ss)@ == old(ss)@.step(),
        result == (match old(ss)@.step_result() {
            Ok(report) => Ok::<StepOutcome, SimError>(report.outcome),
            Err(error) => Err::<StepOutcome, SimError>(error),
        }),
{
    process_recv_update_cycle_info_for_client(ss, msg.dest_client, msg)
}

/// Lets `client_id` take in the notice that `msg` carries. If the client
/// does not wait for it, nothing changes. If the notice resumes the client,
/// its tick is scheduled at the current time.
fn process_recv_update_cycle_info_for_client(
    ss: &mut SimState,
    client_id: ClientID,
    msg: Message,
) -> (result: Result<StepOutcome, SimError>)
    requires
        old(ss)@.wf(),
        old(ss)@.world.events.len() > 0,
        old(ss)@.world.events.first().e_type == EventType::MessageArrival(msg),
        client_id == msg.dest_client,
    ensures
        final(ss)@ == old(ss)@.step(),
        result == (match old(ss)@.step_result() {
            Ok(report) => Ok::<StepOutcome, SimError>(report.outcome),
            Err(error) => Err::<StepOutcome, SimError>(error),
        }),
{
    let ghost before = ss@;
    let ghost due = before.at_next_event();
    assert(before.world.events[0].e_type.subject() == client_id);
    assert(before.clients[client_id as int].wf());

    match ss.clients[client_id].acknowledge(msg.sending_client, msg.target_update_cycle) {
        Err(error) => {
            assert(ss@ == before);
            Err(error)
        },
        Ok(acknowledgement) => {
            ss.ws.get_next_event();
            if acknowledgement.resumed {
                let curr_sim_time: usize = ss.ws.ms_elapsed;
                add_event_for_next_update_cycle_start(&mut ss.ws, client_id, curr_sim_time);
            }
            assert(ss@ == due.message_handled(msg));
            Ok(
                StepOutcome::Received {
                    first_cleared: acknowledgement.first_cleared,
                    next_awaited: acknowledgement.next_awaited,
                    resumed: acknowledgement.resumed,
                },
            )
        },
    }
}

/// How many latency samples the seeding of a simulation uses, or `None`
/// when there are more of them than can be counted.
pub fn delays_needed_to_seed(num_clients: usize, l_buf_size: usize) -> (needed: Option<usize>)
    ensures
        needed == (if delays_to_seed(num_clients as nat, l_buf_size as nat) <= usize::MAX {
            Some(delays_to_seed(num_clients as nat, l_buf_size as nat) as usize)
        } else {
            None
        }),
{
    if num_clients == 0 || l_buf_size == 0 {
        assert(delays_to_seed(num_clients as nat, l_buf_size as nat) == 0) by (nonlinear_arith)
            requires
                num_clients == 0 || l_buf_size == 0,
                delays_to_seed(num_clients as nat, l_buf_size as nat) == l_buf_size * (num_clients
                    * peers_of_each(num_clients as nat)),
                num_clients == 0 ==> peers_of_each(num_clients as nat) == 0,
        ;
        return Some(0);
    }
    let per_sender: usize = num_clients - 1;
    match num_clients.checked_mul(per_sender) {
        None => {
            assert(l_buf_size * (num_clients * per_sender) > usize::MAX) by (nonlinear_arith)
                requires
                    l_buf_size >= 1,
                    num_clients * per_sender > usize::MAX,
            ;
            None
        },
        Some(per_cycle) => l_buf_size.checked_mul(per_cycle),
    }
}

/// Lets every client announce each cycle below `l_buf_size`, as if it had
/// completed them already, so that the run starts with notices on their way.
fn create_initial_client_input_frames(ss: &mut SimState, l_buf_size: usize)
    requires
        seedable(old(ss)@),
        delays_to_seed(old(ss)@.clients.len(), l_buf_size as nat) <= old(ss)@.world.delays.len(),
    ensures
        final(ss)@ == old(ss)@.seeded(l_buf_size as nat),
{
    let num_input_frames_to_create: usize = l_buf_size;
    let num_clients: usize = ss.clients.len();
    let ghost start = ss@;
    let ghost per_sender = peers_of_each(num_clients as nat);
    let ghost per_cycle = num_clients * per_sender;

    let mut i: usize = 0;
    while i < num_input_frames_to_create
        invariant
            i <= num_input_frames_to_create == l_buf_size,
            num_clients == ss.clients@.len() == start.clients.len(),
            seedable(start),
            per_sender == peers_of_each(num_clients as nat),
            per_cycle == num_clients * per_sender,
            l_buf_size * per_cycle <= start.world.delays.len(),
            ss@ == start.seeded(i as nat),
        decreases num_input_frames_to_create - i,
    {
        let ghost round_start = ss@;
        proof {
            assert(i * per_cycle + per_cycle <= l_buf_size * per_cycle) by (nonlinear_arith)
                requires
                    i < l_buf_size,
                    per_cycle >= 0,
            ;
            assert(delays_to_seed(num_clients as nat, i as nat) == i * per_cycle);
            lemma_seeded(start, i as nat);
        }
        let mut sending_client_id: usize = 0;
        while sending_client_id < num_clients
            invariant
                sending_client_id <= num_clients,
                num_clients == ss.clients@.len() == round_start.clients.len(),
                seedable(round_start),
                per_sender == peers_of_each(num_clients as nat),
                per_cycle == num_clients * per_sender,
                per_cycle <= round_start.world.delays.len(),
                ss@ == round_start.seeded_round(i, sending_client_id as nat),
            decreases num_clients - sending_client_id,
        {
            proof {
                assert(sending_client_id * per_sender + per_sender <= num_clients * per_sender)
                    by (nonlinear_arith)
                    requires
                        sending_client_id < num_clients,
                        per_sender >= 0,
                ;
                lemma_seeded_round(round_start, i, sending_client_id as nat);
                lemma_others(num_clients as nat, sending_client_id);
            }
            send_update_cycle_info_out_to_other_clients(
                &mut ss.ws,
                num_clients,
                sending_client_id,
                i,
            );
            ss.clients[sending_client_id].add_cycle_to_waiting_on(i, num_clients);
            assert(ss@ == round_start.seeded_round(i, sending_client_id as nat).announced(
                sending_client_id,
                i,
            ));
            sending_client_id = sending_client_id + 1;
        }
        i = i + 1;
    }
}

/// Schedules the first tick of every client at the current time.
fn create_initial_client_update_cycle_events(ss: &mut SimState)
    requires
        sorted_by_time(old(ss)@.world.events),
        old(ss)@.world.ms_elapsed == 0,
    ensures
        final(ss)@ == (SimView {
            world: old(ss)@.world.ticking(old(ss)@.clients.len()),
            ..old(ss)@
        }),
{
    let mut client_id: usize = 0;
    while client_id < ss.clients.len()
        invariant
            client_id <= ss.clients@.len(),
            sorted_by_time(ss@.world.events),
            old(ss)@.world.ms_elapsed == 0,
            ss@ == (SimView { world: old(ss)@.world.ticking(client_id as nat), ..old(ss)@ }),
        decreases ss.clients@.len() - client_id,
    {
        add_event_for_next_update_cycle_start(&mut ss.ws, client_id, 0);
        client_id = client_id + 1;
    }
}

/// Starts a simulation of `num_clients` clients with buffers `l_buf_size`
/// cycles deep. `samples` are raw samples of the latency distribution; the
/// seeding uses the first `delays_to_seed` of them and the rest stay in
/// store for the run.
///
/// Fails when `samples` are too few for the seeding.
pub fn init_state_with_clients(
    num_clients: usize,
    l_buf_size: usize,
    samples: &[isize],
) -> (result: Result<SimState, SimError>)
    ensures
        match result {
            Ok(ss) => {
                &&& delays_to_seed(num_clients as nat, l_buf_size as nat) <= samples@.len()
                &&& ss@ == SimView::initial(num_clients as nat, l_buf_size, clamp_delays(samples@))
                &&& ss@.wf()
                &&& ss@.clients.len() == num_clients
                &&& forall|i: int|
                    0 <= i < num_clients ==> (#[trigger] ss@.clients[i]).waiting_on.len()
                        == l_buf_size * (num_clients - 1)
            },
            Err(error) => {
                &&& error == SimError::MissingLatencySample
                &&& delays_to_seed(num_clients as nat, l_buf_size as nat) > samples@.len()
            },
        },
{
    let num_samples: usize = samples.len();
    match delays_needed_to_seed(num_clients, l_buf_size) {
        None => {
            return Err(SimError::MissingLatencySample);
        },
        Some(needed) => {
            if num_samples < needed {
                return Err(SimError::MissingLatencySample);
            }
        },
    }
    let mut ls = LatencyState::new();
    let mut k: usize = 0;
    while k < samples.len()
        invariant
            k <= samples@.len(),
            ls@ == clamp_delays(samples@.take(k as int)),
        decreases samples@.len() - k,
    {
        ls.supply_sample(samples[k]);
        assert(clamp_delays(samples@.take(k as int)).push(clamp_delay(samples@[k as int]))
            == clamp_delays(samples@.take(k + 1)));
        k = k + 1;
    }
    assert(samples@.take(k as int) == samples@);
    let ws = WorldState { ms_elapsed: 0, upcoming_events: EventQueue::new(), ls };

    let mut clients: Vec<Client> = Vec::new();
    let mut client_id: usize = 0;
    while client_id < num_clients
        invariant
            client_id <= num_clients,
            clients@.len() == client_id,
            forall|i: int| 0 <= i < client_id ==> (#[trigger] clients@[i])@ == fresh_clients(
                num_clients as nat,
                l_buf_size,
            )[i],
        decreases num_clients - client_id,
    {
        clients.push(Client::new(client_id, l_buf_size));
        client_id = client_id + 1;
    }

    let mut ss = SimState { ws, clients };
    assert(ss@.clients == fresh_clients(num_clients as nat, l_buf_size));
    proof {
        lemma_seeded(ss@, l_buf_size as nat);
        lemma_initial_wf(num_clients as nat, l_buf_size, clamp_delays(samples@));
        assert forall|i: int| 0 <= i < num_clients implies (#[trigger] SimView::initial(
            num_clients as nat,
            l_buf_size,
            clamp_delays(samples@),
        ).clients[i]).waiting_on.len() == l_buf_size * (num_clients - 1) by {
            law_initial_waits(num_clients as nat, l_buf_size, clamp_delays(samples@), i as usize);
        }
    }
    create_initial_client_input_frames(&mut ss, l_buf_size);
    create_initial_client_update_cycle_events(&mut ss);
    Ok(ss)
}

/// Starts a simulation of two clients, configured by `p_args`, from the raw
/// latency samples `samples`.
///
/// Fails when `samples` are too few for the seeding.
pub fn init_state(p_args: &ProgArgs, samples: &[isize]) -> (result: Result<SimState, SimError>)
    ensures
        match result {
            Ok(ss) => {
                &&& delays_to_seed(NUM_CLIENTS as nat, p_args.l_buf_size as nat) <= samples@.len()
                &&& ss@ == SimView::initial(
                    NUM_CLIENTS as nat,
                    p_args.l_buf_size,
                    clamp_delays(samples@),
                )
                &&& ss@.wf()
                &&& ss@.clients.len() == NUM_CLIENTS
                &&& forall|i: int|
                    0 <= i < NUM_CLIENTS ==> (#[trigger] ss@.clients[i]).waiting_on.len()
                        == p_args.l_buf_size
            },
            Err(error) => {
                &&& error == SimError::MissingLatencySample
                &&& delays_to_seed(NUM_CLIENTS as nat, p_args.l_buf_size as nat) > samples@.len()
            },
        },
{
    init_state_with_clients(NUM_CLIENTS, p_args.l_buf_size, samples)
}

/// Takes one step: delivers the earliest event, with the clock set to its
/// trigger time, to the client that it is for.
///
/// The step fails, and changes nothing, when no event is pending, when a
/// message arrives that its destination does not wait for, when the latency
/// model lacks a delay for a message that the step would send, or when a
/// time or a cycle number would overflow.
pub fn run_sim_until_next_event(ss: &mut SimState) -> (result: Result<StepReport, SimError>)
    requires
        old(ss)@.wf(),
    ensures
        final(ss)@ == old(ss)@.step(),
        result == old(ss)@.step_result(),
        final(ss)@.wf(),
        old(ss)@.world.ms_elapsed <= final(ss)@.world.ms_elapsed,
        match result {
            Ok(report) => final(ss)@.world.ms_elapsed == report.event.event_trigger_time,
            Err(error) => final(ss)@ == old(ss)@,
        },
{
    proof {
        lemma_step_wf(ss@);
        if ss@.step_result() is Ok {
            law_step_sets_clock(ss@);
        }
    }
    match ss.ws.upcoming_events.peek_earliest() {
        None => {
            if all_clients_stalled(&ss.clients) {
                Err(SimError::Deadlock)
            } else {
                Err(SimError::EmptyQueue)
            }
        },
        Some(next_event) => {
            let handled = match next_event.e_type {
                EventType::NextUpdateCycle(client_id) => handle_update_cycle_event(ss, client_id),
                EventType::MessageArrival(msg) => handle_msg_received_event(ss, msg),
            };
            match handled {
                Ok(outcome) => Ok(StepReport { event: next_event, outcome }),
                Err(error) => Err(error),
            }
        },
    }
}

} // verus!
