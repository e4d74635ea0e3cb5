//! What holds of the state in which a run starts.

use crate::client::{lemma_others, others, waits_on, ClientView, WaitingClientUpdateCycle};
use crate::event::{ClientID, EventType, UpcomingEvent};
use crate::event_queue::sorted_by_time;
use crate::model::{
    delays_to_seed, events_valid, fresh_clients, peers_of_each, SimView, WorldView,
};
use crate::wellformed::{lemma_notices_sent_valid, lemma_schedule_valid};
use vstd::multiset::Multiset;
use vstd::prelude::*;
use vstd::seq_lib::to_multiset_contains;

verus! {

/// Holds of a simulation while it is being seeded: the clock stands at
/// zero, the events are sorted and act on clients that exist.
pub open spec fn seedable(s: SimView) -> bool {
    &&& s.clients.len() <= usize::MAX
    &&& s.world.ms_elapsed == 0
    &&& sorted_by_time(s.world.events)
    &&& events_valid(s.world.events, 0, s.clients.len())
}

/// One client's announcement uses one delay for each of its peers and
/// touches no other client.
pub proof fn lemma_announced(s: SimView, client_id: ClientID, cycle: usize)
    requires
        seedable(s),
        client_id < s.clients.len(),
        peers_of_each(s.clients.len()) <= s.world.delays.len(),
    ensures
        seedable(s.announced(client_id, cycle)),
        s.announced(client_id, cycle).clients.len() == s.clients.len(),
        s.announced(client_id, cycle).world.delays == s.world.delays.skip(
            peers_of_each(s.clients.len()) as int,
        ),
        s.announced(client_id, cycle).world.events.len() == s.world.events.len() + peers_of_each(
            s.clients.len(),
        ),
        forall|j: int|
            0 <= j < s.clients.len() ==> (#[trigger] s.announced(client_id, cycle).clients[j]) == (
            if j == client_id {
                s.clients[j].waiting_also_on(cycle, s.clients.len())
            } else {
                s.clients[j]
            }),
{
    let num_clients = s.clients.len();
    lemma_others(num_clients, client_id);
    lemma_notices_sent_valid(
        s.world,
        client_id,
        cycle,
        others(num_clients, client_id),
        num_clients,
    );
}

/// A round of announcements uses one delay for each ordered pair of a
/// sender and one of its peers, and adds the cycle to each sender's
/// wait-set.
pub proof fn lemma_seeded_round(s: SimView, cycle: usize, senders: nat)
    requires
        seedable(s),
        senders <= s.clients.len(),
        senders * peers_of_each(s.clients.len()) <= s.world.delays.len(),
    ensures
        seedable(s.seeded_round(cycle, senders)),
        s.seeded_round(cycle, senders).clients.len() == s.clients.len(),
        s.seeded_round(cycle, senders).world.delays == s.world.delays.skip(
            (senders * peers_of_each(s.clients.len())) as int,
        ),
        s.seeded_round(cycle, senders).world.events.len() == s.world.events.len() + senders
            * peers_of_each(s.clients.len()),
        forall|j: int|
            0 <= j < s.clients.len() ==> (#[trigger] s.seeded_round(cycle, senders).clients[j]) == (
            if j < senders {
                s.clients[j].waiting_also_on(cycle, s.clients.len())
            } else {
                s.clients[j]
            }),
    decreases senders,
{
    let per_sender = peers_of_each(s.clients.len());
    if senders == 0 {
        assert(s.world.delays.skip(0) == s.world.delays);
        assert(senders * per_sender == 0);
    } else {
        let done = (senders - 1) as nat;
        assert(senders * per_sender == done * per_sender + per_sender) by (nonlinear_arith)
            requires
                done == senders - 1,
        ;
        lemma_seeded_round(s, cycle, done);
        let before = s.seeded_round(cycle, done);
        lemma_announced(before, done as usize, cycle);
        assert(s.world.delays.skip((done * per_sender) as int).skip(per_sender as int)
            == s.world.delays.skip((senders * per_sender) as int));
    }
}

/// Seeding uses `delays_to_seed` delays, leaves the clock at zero, and
/// makes every client wait for every peer's notice for every seeded cycle.
pub proof fn lemma_seeded(s: SimView, cycles: nat)
    requires
        seedable(s),
        delays_to_seed(s.clients.len(), cycles) <= s.world.delays.len(),
    ensures
        seedable(s.seeded(cycles)),
        s.seeded(cycles).clients.len() == s.clients.len(),
        s.seeded(cycles).world.delays == s.world.delays.skip(
            delays_to_seed(s.clients.len(), cycles) as int,
        ),
        s.seeded(cycles).world.events.len() == s.world.events.len() + delays_to_seed(
            s.clients.len(),
            cycles,
        ),
        forall|j: int|
            0 <= j < s.clients.len() ==> (#[trigger] s.seeded(cycles).clients[j])
                == s.clients[j].seeded(cycles, s.clients.len()),
    decreases cycles,
{
    let num_clients = s.clients.len();
    let per_sender = peers_of_each(num_clients);
    let per_cycle = num_clients * per_sender;
    assert(delays_to_seed(num_clients, cycles) == cycles * per_cycle);
    if cycles == 0 {
        assert(s.world.delays.skip(0) == s.world.delays);
        assert(cycles * per_cycle == 0);
    } else {
        let done = (cycles - 1) as nat;
        assert(delays_to_seed(num_clients, done) == done * per_cycle);
        assert(cycles * per_cycle == done * per_cycle + per_cycle) by (nonlinear_arith)
            requires
                done == cycles - 1,
        ;
        lemma_seeded(s, done);
        let before = s.seeded(done);
        lemma_seeded_round(before, done as usize, num_clients);
        assert(s.world.delays.skip((done * per_cycle) as int).skip(per_cycle as int)
            == s.world.delays.skip((cycles * per_cycle) as int));
    }
}

/// Scheduling the first ticks keeps the world sorted and valid, and adds
/// one event for each client.
pub proof fn lemma_ticking(world: WorldView, ticking: nat, num_clients: nat)
    requires
        sorted_by_time(world.events),
        events_valid(world.events, world.ms_elapsed, num_clients),
        ticking <= num_clients <= usize::MAX,
    ensures
        sorted_by_time(world.ticking(ticking).events),
        events_valid(world.ticking(ticking).events, world.ms_elapsed, num_clients),
        world.ticking(ticking).ms_elapsed == world.ms_elapsed,
        world.ticking(ticking).delays == world.delays,
        world.ticking(ticking).events.len() == world.events.len() + ticking,
    decreases ticking,
{
    if ticking > 0 {
        let done = (ticking - 1) as nat;
        lemma_ticking(world, done, num_clients);
        lemma_schedule_valid(
            world.ticking(done).events,
            UpcomingEvent {
                event_trigger_time: world.ms_elapsed,
                e_type: EventType::NextUpdateCycle(done as usize),
            },
            world.ms_elapsed,
            num_clients,
        );
    }
}

/// A fresh client that is seeded with at most as many cycles as its buffer
/// is deep waits only for cycles below that number, and is well-formed.
pub proof fn lemma_seeded_client_wf(client: ClientView, cycles: nat, num_clients: nat)
    requires
        client.waiting_on == Multiset::<WaitingClientUpdateCycle>::empty(),
        client.curr_update_cycle == 0,
        client.next_awaited == 0,
        cycles <= client.lockstep_buffer_size,
    ensures
        client.seeded(cycles, num_clients).wf(),
        client.seeded(cycles, num_clients).client_id == client.client_id,
        client.seeded(cycles, num_clients).curr_update_cycle == 0,
        client.seeded(cycles, num_clients).next_awaited == 0,
        client.seeded(cycles, num_clients).lockstep_buffer_size == client.lockstep_buffer_size,
        client.seeded(cycles, num_clients).is_stalled == client.is_stalled,
        forall|w: WaitingClientUpdateCycle| #[trigger]
            client.seeded(cycles, num_clients).waiting_on.count(w) > 0 ==> w.update_cycle < cycles,
    decreases cycles,
{
    broadcast use vstd::multiset::group_multiset_axioms;

    if cycles > 0 {
        let done = (cycles - 1) as nat;
        lemma_seeded_client_wf(client, done, num_clients);
        let before = client.seeded(done, num_clients);
        let after = client.seeded(cycles, num_clients);
        let added = waits_on(others(num_clients, before.client_id), done as usize);
        assert forall|w: WaitingClientUpdateCycle| #[trigger]
            after.waiting_on.count(w) > 0 implies w.update_cycle < cycles by {
            if before.waiting_on.count(w) == 0 {
                to_multiset_contains(added, w);
                assert(added.contains(w));
                let k = choose|k: int| 0 <= k < added.len() && added[k] == w;
                assert(added[k].update_cycle == done);
            }
        }
    }
}

/// The state in which a run starts is well-formed, provided that the
/// seeding had enough delays.
pub proof fn lemma_initial_wf(num_clients: nat, l_buf_size: usize, delays: Seq<usize>)
    requires
        num_clients <= usize::MAX,
        delays_to_seed(num_clients, l_buf_size as nat) <= delays.len(),
    ensures
        SimView::initial(num_clients, l_buf_size, delays).wf(),
        SimView::initial(num_clients, l_buf_size, delays).clients.len() == num_clients,
        SimView::initial(num_clients, l_buf_size, delays).world.ms_elapsed == 0,
        SimView::initial(num_clients, l_buf_size, delays).world.delays == delays.skip(
            delays_to_seed(num_clients, l_buf_size as nat) as int,
        ),
        SimView::initial(num_clients, l_buf_size, delays).world.events.len() == delays_to_seed(
            num_clients,
            l_buf_size as nat,
        ) + num_clients,
        forall|i: int|
            0 <= i < num_clients ==> (#[trigger] SimView::initial(
                num_clients,
                l_buf_size,
                delays,
            ).clients[i]) == fresh_clients(num_clients, l_buf_size)[i].seeded(
                l_buf_size as nat,
                num_clients,
            ),
{
    let fresh = SimView {
        world: WorldView { ms_elapsed: 0, events: Seq::empty(), delays },
        clients: fresh_clients(num_clients, l_buf_size),
    };
    lemma_seeded(fresh, l_buf_size as nat);
    let seeded = fresh.seeded(l_buf_size as nat);
    lemma_ticking(seeded.world, num_clients, num_clients);
    let initial = SimView::initial(num_clients, l_buf_size, delays);
    assert forall|i: int| 0 <= i < initial.clients.len() implies (
    #[trigger] initial.clients[i]).client_id == i && initial.clients[i].wf() by {
        lemma_seeded_client_wf(fresh.clients[i], l_buf_size as nat, num_clients);
    }
}

} // verus!
