//! What holds of every run of the simulation.

use crate::client::{
    has_cycle, lemma_others, others, waits_on, ClientView, WaitingClientUpdateCycle,
};
use crate::error::SimError;
use crate::event::{ClientID, EventType, UpcomingEvent};
use crate::event_queue::lemma_schedule_sorted;
use crate::model::{delays_to_seed, fresh_clients, SimView, WorldView};
use crate::seeding::lemma_initial_wf;
use crate::wellformed::{lemma_at_next_event_valid, lemma_awaited_after_exists, lemma_step_wf};
use vstd::multiset::Multiset;
use vstd::prelude::*;
use vstd::seq_lib::to_multiset_contains;
use vstd::seq_lib::to_multiset_len;

verus! {

/// Supplying delays keeps a simulation well-formed and changes neither the
/// clock, the events nor the clients.
pub proof fn lemma_with_delays_wf(s: SimView, delays: Seq<usize>)
    requires
        s.wf(),
    ensures
        s.with_delays(delays).wf(),
{
}

/// A run keeps a well-formed simulation well-formed.
pub proof fn lemma_after_wf(s: SimView, supplies: Seq<Seq<usize>>, steps: nat)
    requires
        s.wf(),
    ensures
        s.after(supplies, steps).wf(),
        s.after(supplies, steps).clients.len() == s.clients.len(),
        s.world.ms_elapsed <= s.after(supplies, steps).world.ms_elapsed,
    decreases steps,
{
    if steps > 0 {
        lemma_after_wf(s, supplies, (steps - 1) as nat);
        lemma_step_wf(s.after(supplies, (steps - 1) as nat).with_delays(supplies[steps - 1]));
    }
}

/// A step that succeeds processes the earliest pending event, which is not
/// due before the current time, and leaves the clock at that event's trigger
/// time.
pub proof fn law_step_sets_clock(s: SimView)
    requires
        s.wf(),
        s.step_result() is Ok,
    ensures
        s.world.events.len() > 0,
        s.step_result().unwrap().event == s.world.events.first(),
        s.world.ms_elapsed <= s.step_result().unwrap().event.event_trigger_time,
        s.step().world.ms_elapsed == s.step_result().unwrap().event.event_trigger_time,
{
    lemma_at_next_event_valid(s.world, s.clients.len());
    lemma_clock_kept(s);
}

/// Handling an event leaves the clock where taking the event out has set
/// it.
proof fn lemma_clock_kept(s: SimView)
    requires
        s.wf(),
        s.step_error().is_none(),
    ensures
        s.step().world.ms_elapsed == s.world.events.first().event_trigger_time,
{
    let due = s.at_next_event();
    match s.world.events.first().e_type {
        EventType::NextUpdateCycle(client_id) => {
            let client = s.clients[client_id as int];
            if !client.at_buffer_limit() {
                lemma_notices_keep_clock(
                    due.world,
                    client_id,
                    client.target_cycle() as usize,
                    others(s.clients.len(), client_id),
                );
            }
        },
        EventType::MessageArrival(msg) => {},
    }
}

/// Sending notices leaves the clock alone.
proof fn lemma_notices_keep_clock(
    world: WorldView,
    client_id: ClientID,
    cycle: usize,
    peers: Seq<ClientID>,
)
    ensures
        world.notices_sent(client_id, cycle, peers).ms_elapsed == world.ms_elapsed,
    decreases peers.len(),
{
    if peers.len() > 0 {
        lemma_notices_keep_clock(world, client_id, cycle, peers.drop_last());
    }
}

/// Time never runs backwards: of two events that a run processes one after
/// the other, the second is not due before the first.
pub proof fn law_monotonic_time(s: SimView, supplies: Seq<Seq<usize>>, k: nat)
    requires
        s.wf(),
        k + 1 < supplies.len(),
        s.result_of(supplies, k) is Ok,
        s.result_of(supplies, k + 1) is Ok,
    ensures
        s.result_of(supplies, k).unwrap().event.event_trigger_time <= s.result_of(
            supplies,
            k + 1,
        ).unwrap().event.event_trigger_time,
{
    lemma_after_wf(s, supplies, k);
    let first = s.after(supplies, k).with_delays(supplies[k as int]);
    law_step_sets_clock(first);
    lemma_step_wf(first);
    assert(s.after(supplies, k + 1) == first.step());
    let second = s.after(supplies, k + 1).with_delays(supplies[(k + 1) as int]);
    law_step_sets_clock(second);
}

/// A step never lacks a delay when the latency model has as many in store
/// as `delays_wanted` says.
pub proof fn law_wanted_delays_suffice(s: SimView)
    requires
        s.wf(),
        s.delays_wanted() <= s.world.delays.len(),
    ensures
        s.step_error() != Some(SimError::MissingLatencySample),
{
    if s.world.events.len() > 0 {
        assert(s.world.events[0].e_type.subject() < s.clients.len());
    }
}

/// Holds when `w` is one of the entries that seeding puts into the wait-set
/// of client `ours`: the notice of a peer for a cycle below `cycles`.
pub open spec fn is_seeded_wait(
    w: WaitingClientUpdateCycle,
    ours: ClientID,
    num_clients: nat,
    cycles: nat,
) -> bool {
    w.from_client < num_clients && w.from_client != ours && w.update_cycle < cycles
}

/// The entries that a client adds for one cycle are one for each peer, and
/// no two of them are the same.
proof fn lemma_cycle_waits(num_clients: nat, ours: ClientID, cycle: usize)
    requires
        ours < num_clients <= usize::MAX,
    ensures
        waits_on(others(num_clients, ours), cycle).to_multiset().len() == num_clients - 1,
        forall|w: WaitingClientUpdateCycle| #[trigger]
            waits_on(others(num_clients, ours), cycle).to_multiset().count(w) == (if w.from_client
                < num_clients && w.from_client != ours && w.update_cycle == cycle {
                1nat
            } else {
                0nat
            }),
{
    let peers = others(num_clients, ours);
    let added = waits_on(peers, cycle);
    lemma_others(num_clients, ours);
    to_multiset_len(added);
    assert(added.no_duplicates());
    added.lemma_multiset_has_no_duplicates();
    assert forall|w: WaitingClientUpdateCycle| #[trigger]
        added.to_multiset().count(w) == (if w.from_client < num_clients && w.from_client != ours
            && w.update_cycle == cycle {
            1nat
        } else {
            0nat
        }) by {
        to_multiset_contains(added, w);
        if w.from_client < num_clients && w.from_client != ours && w.update_cycle == cycle {
            let k: int = if w.from_client < ours {
                w.from_client as int
            } else {
                w.from_client - 1
            };
            assert(added[k] == w);
            assert(added.contains(w));
            assert(added.to_multiset().contains(w));
        } else if added.contains(w) {
            let k = choose|k: int| 0 <= k < added.len() && added[k] == w;
            assert(peers[k] == w.from_client);
        }
    }
}

/// Seeding makes a client that waits for nothing wait for exactly one
/// notice from each peer for each seeded cycle.
pub proof fn law_seeded_waits(client: ClientView, cycles: nat, num_clients: nat)
    requires
        client.waiting_on == Multiset::<WaitingClientUpdateCycle>::empty(),
        client.client_id < num_clients <= usize::MAX,
        cycles <= usize::MAX,
    ensures
        client.seeded(cycles, num_clients).client_id == client.client_id,
        client.seeded(cycles, num_clients).waiting_on.len() == cycles * (num_clients - 1),
        forall|w: WaitingClientUpdateCycle| #[trigger]
            client.seeded(cycles, num_clients).waiting_on.count(w) == (if is_seeded_wait(
                w,
                client.client_id,
                num_clients,
                cycles,
            ) {
                1nat
            } else {
                0nat
            }),
    decreases cycles,
{
    broadcast use vstd::multiset::group_multiset_axioms;

    if cycles > 0 {
        let done = (cycles - 1) as nat;
        law_seeded_waits(client, done, num_clients);
        lemma_cycle_waits(num_clients, client.client_id, done as usize);
        assert(cycles * (num_clients - 1) == done * (num_clients - 1) + (num_clients - 1))
            by (nonlinear_arith)
            requires
                done == cycles - 1,
        ;
    }
}

/// Wait-set conservation: in the state in which a run of `num_clients`
/// clients with buffers `l_buf_size` deep starts, every client waits for
/// `l_buf_size * (num_clients - 1)` notices, exactly one from each peer for
/// each seeded cycle.
pub proof fn law_initial_waits(
    num_clients: nat,
    l_buf_size: usize,
    delays: Seq<usize>,
    client_id: ClientID,
)
    requires
        client_id < num_clients <= usize::MAX,
        delays_to_seed(num_clients, l_buf_size as nat) <= delays.len(),
    ensures
        SimView::initial(num_clients, l_buf_size, delays).clients[client_id as int].waiting_on.len()
            == l_buf_size * (num_clients - 1),
        forall|w: WaitingClientUpdateCycle| #[trigger]
            SimView::initial(
                num_clients,
                l_buf_size,
                delays,
            ).clients[client_id as int].waiting_on.count(w) == (if is_seeded_wait(w, client_id, num_clients, l_buf_size as nat) {
                1nat
            } else {
                0nat
            }),
{
    lemma_initial_wf(num_clients, l_buf_size, delays);
    law_seeded_waits(
        fresh_clients(num_clients, l_buf_size)[client_id as int],
        l_buf_size as nat,
        num_clients,
    );
}

/// How many of the cycles from `from` up to `to`, exclusive, have no entry
/// in `waits`.
pub open spec fn exhausted_between(
    waits: Multiset<WaitingClientUpdateCycle>,
    from: nat,
    to: nat,
) -> nat
    decreases to,
{
    if to <= from {
        0
    } else {
        exhausted_between(waits, from, (to - 1) as nat) + (if has_cycle(waits, (to - 1) as usize) {
            0nat
        } else {
            1nat
        })
    }
}

/// If no cycle of a range has an entry, all of them are exhausted.
proof fn lemma_all_exhausted(waits: Multiset<WaitingClientUpdateCycle>, from: nat, to: nat)
    requires
        from <= to <= usize::MAX + 1,
        forall|c: usize| from <= c < to ==> !has_cycle(waits, c),
    ensures
        exhausted_between(waits, from, to) == to - from,
    decreases to,
{
    if from < to {
        lemma_all_exhausted(waits, from, (to - 1) as nat);
        assert(!has_cycle(waits, (to - 1) as usize));
    }
}

/// When a notice arrives, the awaited cycle moves on only over cycles for
/// which nothing is outstanding any more: it grows by exactly the number of
/// such cycles that it passes. Of the cycles it passes, only the cycle of
/// the notice itself can have had an entry before the arrival. And only a
/// client that was stalled, and whose awaited cycle moved, is resumed.
pub proof fn law_awaited_cycle_passes_exhausted_cycles(
    client: ClientView,
    w: WaitingClientUpdateCycle,
)
    requires
        client.no_wait_below_awaited(),
        client.acknowledge_error(w).is_none(),
    ensures
        client.acknowledged(w).no_wait_below_awaited(),
        client.next_awaited <= client.acknowledged(w).next_awaited,
        client.acknowledged(w).next_awaited - client.next_awaited == exhausted_between(
            client.acknowledged(w).waiting_on,
            client.next_awaited as nat,
            client.acknowledged(w).next_awaited as nat,
        ),
        forall|c: usize|
            client.next_awaited <= c < client.acknowledged(w).next_awaited ==> !has_cycle(
                client.acknowledged(w).waiting_on,
                c,
            ),
        forall|c: usize|
            client.next_awaited <= c < client.acknowledged(w).next_awaited && c != w.update_cycle
                ==> !has_cycle(client.waiting_on, c),
        !client.acknowledged(w).is_stalled || (client.is_stalled && client.acknowledged(
            w,
        ).next_awaited == client.next_awaited),
{
    broadcast use vstd::multiset::group_multiset_axioms;

    lemma_awaited_after_exists(client, w);
    let after = client.acknowledged(w);
    assert forall|v: WaitingClientUpdateCycle| #[trigger]
        after.waiting_on.count(v) > 0 implies after.next_awaited <= v.update_cycle by {
        assert(client.waiting_on.count(v) > 0);
        if v.update_cycle < after.next_awaited {
            assert(has_cycle(after.waiting_on, v.update_cycle));
        }
    }
    assert forall|c: usize| client.next_awaited <= c < after.next_awaited implies !has_cycle(
        after.waiting_on,
        c,
    ) by {
        if after.waiting_on.len() == 0 {
            if has_cycle(after.waiting_on, c) {
                let v = choose|v: WaitingClientUpdateCycle| #[trigger]
                    after.waiting_on.count(v) > 0 && v.update_cycle == c;
                vstd::multiset::axiom_count_le_len(after.waiting_on, v);
            }
        }
    }
    assert forall|c: usize|
        client.next_awaited <= c < after.next_awaited && c != w.update_cycle implies !has_cycle(
        client.waiting_on,
        c,
    ) by {
        if has_cycle(client.waiting_on, c) {
            let v = choose|v: WaitingClientUpdateCycle| #[trigger]
                client.waiting_on.count(v) > 0 && v.update_cycle == c;
            assert(after.waiting_on.count(v) > 0);
            assert(has_cycle(after.waiting_on, c));
        }
    }
    lemma_all_exhausted(after.waiting_on, client.next_awaited as nat, after.next_awaited as nat);
}

/// The arrival of a message schedules at most one event: the tick of its
/// destination, and only if the arrival resumed it.
pub proof fn law_arrival_resumes_at_most_once(s: SimView)
    requires
        s.wf(),
        s.step_result() is Ok,
        s.world.events.first().e_type is MessageArrival,
    ensures
        s.step_result().unwrap().outcome is Received,
        s.step().world.events.len() == s.world.events.len() - 1 + (
        if s.step_result().unwrap().outcome->resumed {
            1int
        } else {
            0int
        }),
        s.step().world.delays == s.world.delays,
{
    lemma_at_next_event_valid(s.world, s.clients.len());
    let due = s.at_next_event();
    lemma_schedule_sorted(
        due.world.events,
        UpcomingEvent {
            event_trigger_time: due.world.ms_elapsed,
            e_type: EventType::NextUpdateCycle(s.world.events.first().e_type.subject()),
        },
    );
}

} // verus!
