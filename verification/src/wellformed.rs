//! Every transition keeps a well-formed simulation well-formed.

use crate::client::{
    awaited_after, has_cycle, is_awaited_after, lemma_others, others, waits_on, ClientView,
    WaitingClientUpdateCycle,
};
use crate::event::{ClientID, EventType, Message, UpcomingEvent, UPDATE_CYCLE_FREQ};
use crate::event_queue::{insertion_point, lemma_insertion_point, schedule, sorted_by_time};
use crate::model::{events_valid, wait_for, SimView, WorldView};
use vstd::multiset::Multiset;
use vstd::prelude::*;
use vstd::seq_lib::to_multiset_contains;

verus! {

/// Scheduling a valid event keeps the queue sorted and valid.
pub proof fn lemma_schedule_valid(
    events: Seq<UpcomingEvent>,
    event: UpcomingEvent,
    now: usize,
    num_clients: nat,
)
    requires
        sorted_by_time(events),
        events_valid(events, now, num_clients),
        now <= event.event_trigger_time,
        event.e_type.subject() < num_clients,
    ensures
        sorted_by_time(schedule(events, event)),
        events_valid(schedule(events, event), now, num_clients),
        schedule(events, event).len() == events.len() + 1,
{
    lemma_insertion_point(events, event.event_trigger_time);
    let p = insertion_point(events, event.event_trigger_time) as int;
    let after = schedule(events, event);
    assert forall|k: int| 0 <= k < after.len() implies now <= (#[trigger] after[k]).event_trigger_time
        && after[k].e_type.subject() < num_clients by {
        if k < p {
            assert(after[k] == events[k]);
        } else if k > p {
            assert(after[k] == events[k - 1]);
        }
    }
}

/// Taking the earliest event out leaves a sorted queue of events none of
/// which is due before it.
pub proof fn lemma_at_next_event_valid(world: WorldView, num_clients: nat)
    requires
        sorted_by_time(world.events),
        events_valid(world.events, world.ms_elapsed, num_clients),
        world.events.len() > 0,
    ensures
        sorted_by_time(world.at_next_event().events),
        events_valid(world.at_next_event().events, world.at_next_event().ms_elapsed, num_clients),
        world.ms_elapsed <= world.at_next_event().ms_elapsed,
{
    let rest = world.events.drop_first();
    assert forall|i: int, j: int| 0 <= i <= j < rest.len() implies rest[i].event_trigger_time
        <= rest[j].event_trigger_time by {
        assert(rest[i] == world.events[i + 1] && rest[j] == world.events[j + 1]);
    }
    assert forall|k: int| 0 <= k < rest.len() implies world.events.first().event_trigger_time <= (
    #[trigger] rest[k]).event_trigger_time && rest[k].e_type.subject() < num_clients by {
        assert(rest[k] == world.events[k + 1]);
        assert(world.events[0].event_trigger_time <= world.events[k + 1].event_trigger_time);
    }
    assert(world.ms_elapsed <= world.events[0].event_trigger_time);
}

/// Sending notices keeps the world sorted and valid, uses one delay for
/// each, and leaves the clock alone.
pub proof fn lemma_notices_sent_valid(
    world: WorldView,
    client_id: ClientID,
    cycle: usize,
    peers: Seq<ClientID>,
    num_clients: nat,
)
    requires
        sorted_by_time(world.events),
        events_valid(world.events, world.ms_elapsed, num_clients),
        world.can_send(peers.len()),
        forall|k: int| 0 <= k < peers.len() ==> (#[trigger] peers[k]) < num_clients,
    ensures
        sorted_by_time(world.notices_sent(client_id, cycle, peers).events),
        events_valid(
            world.notices_sent(client_id, cycle, peers).events,
            world.ms_elapsed,
            num_clients,
        ),
        world.notices_sent(client_id, cycle, peers).ms_elapsed == world.ms_elapsed,
        world.notices_sent(client_id, cycle, peers).delays == world.delays.skip(peers.len() as int),
        world.notices_sent(client_id, cycle, peers).events.len() == world.events.len()
            + peers.len(),
    decreases peers.len(),
{
    if peers.len() == 0 {
        assert(world.delays.skip(0) == world.delays);
    } else {
        let front = peers.drop_last();
        assert forall|k: int| 0 <= k < front.len() implies (#[trigger] front[k]) < num_clients by {
            assert(front[k] == peers[k]);
        }
        lemma_notices_sent_valid(world, client_id, cycle, front, num_clients);
        let before = world.notices_sent(client_id, cycle, front);
        let msg = Message {
            target_update_cycle: cycle,
            sending_client: client_id,
            dest_client: peers.last(),
        };
        assert(before.delays.first() == world.delays[front.len() as int]);
        let arrival = UpcomingEvent {
            event_trigger_time: (before.ms_elapsed + before.delays.first()) as usize,
            e_type: EventType::MessageArrival(msg),
        };
        assert(peers.last() == peers[peers.len() - 1]);
        lemma_schedule_valid(before.events, arrival, world.ms_elapsed, num_clients);
        assert(before.delays.drop_first() == world.delays.skip(peers.len() as int));
    }
}

/// A client that stalls stays well-formed.
pub proof fn lemma_stalled_wf(client: ClientView)
    requires
        client.wf(),
    ensures
        client.stalled().wf(),
{
}

/// A well-formed client that is not at its buffer limit, and whose target
/// cycle can be counted, is well-formed after it has completed its next
/// cycle.
pub proof fn lemma_advanced_wf(client: ClientView, num_clients: nat)
    requires
        client.wf(),
        !client.at_buffer_limit(),
        client.target_cycle() <= usize::MAX,
    ensures
        client.advanced(num_clients).wf(),
{
    broadcast use vstd::multiset::group_multiset_axioms;

    let after = client.advanced(num_clients);
    let added = waits_on(others(num_clients, client.client_id), client.target_cycle() as usize);
    assert forall|w: WaitingClientUpdateCycle| #[trigger]
        after.waiting_on.count(w) > 0 implies after.next_awaited <= w.update_cycle
        <= after.curr_update_cycle + after.lockstep_buffer_size by {
        if client.waiting_on.count(w) == 0 {
            to_multiset_contains(added, w);
            assert(added.contains(w));
            let k = choose|k: int| 0 <= k < added.len() && added[k] == w;
            assert(added[k].update_cycle == client.target_cycle());
        }
    }
}

/// A well-formed client that takes a notice in stays well-formed.
pub proof fn lemma_acknowledged_wf(client: ClientView, w: WaitingClientUpdateCycle)
    requires
        client.wf(),
        client.acknowledge_error(w).is_none(),
    ensures
        client.acknowledged(w).wf(),
        client.next_awaited <= client.acknowledged(w).next_awaited,
        is_awaited_after(
            client.waiting_on.remove(w),
            client.next_awaited,
            client.acknowledged(w).next_awaited,
        ),
{
    broadcast use vstd::multiset::group_multiset_axioms;

    let remaining = client.waiting_on.remove(w);
    lemma_awaited_after_exists(client, w);
    let next = awaited_after(remaining, client.next_awaited);
    assert(is_awaited_after(remaining, client.next_awaited, next));
    assert forall|v: WaitingClientUpdateCycle| #[trigger] remaining.count(v) > 0 implies next
        <= v.update_cycle <= client.curr_update_cycle + client.lockstep_buffer_size by {
        assert(client.waiting_on.count(v) > 0);
        if v.update_cycle < next {
            assert(has_cycle(remaining, v.update_cycle));
        }
    }
    if remaining.len() == 0 {
        assert(client.waiting_on.count(w) > 0);
    } else {
        let v = choose|v: WaitingClientUpdateCycle| #[trigger]
            remaining.count(v) > 0 && v.update_cycle == next;
        assert(client.waiting_on.count(v) > 0);
    }
}

/// After a client that waits for no cycle below the awaited one has taken
/// a notice in, some cycle meets `is_awaited_after`.
pub proof fn lemma_awaited_after_exists(client: ClientView, w: WaitingClientUpdateCycle)
    requires
        client.no_wait_below_awaited(),
        client.acknowledge_error(w).is_none(),
    ensures
        is_awaited_after(
            client.waiting_on.remove(w),
            client.next_awaited,
            awaited_after(client.waiting_on.remove(w), client.next_awaited),
        ),
{
    broadcast use vstd::multiset::group_multiset_axioms;

    let remaining = client.waiting_on.remove(w);
    if remaining.len() == 0 {
        assert(client.waiting_on.len() == 1);
        assert(is_awaited_after(
            remaining,
            client.next_awaited,
            (client.next_awaited + 1) as usize,
        ));
    } else {
        let v = remaining.choose();
        assert(remaining.count(v) > 0);
        assert(client.waiting_on.count(v) > 0);
        lemma_lowest_cycle(remaining, client.next_awaited, v.update_cycle);
    }
}

/// If `waits` has an entry for `upper`, then some cycle from `next` up to
/// `upper` is the lowest for which it has one.
proof fn lemma_lowest_cycle(waits: Multiset<WaitingClientUpdateCycle>, next: usize, upper: usize)
    requires
        next <= upper,
        has_cycle(waits, upper),
        waits.len() > 0,
    ensures
        exists|result: usize| is_awaited_after(waits, next, result),
    decreases upper - next,
{
    if has_cycle(waits, next) {
        assert(is_awaited_after(waits, next, next));
    } else {
        let above = (next + 1) as usize;
        lemma_lowest_cycle(waits, above, upper);
        let result = choose|result: usize| is_awaited_after(waits, above, result);
        assert(is_awaited_after(waits, next, result));
    }
}

/// A step keeps a well-formed simulation well-formed, whether it succeeds
/// or fails, and never turns the clock back.
pub proof fn lemma_step_wf(s: SimView)
    requires
        s.wf(),
    ensures
        s.step().wf(),
        s.step().clients.len() == s.clients.len(),
        s.world.ms_elapsed <= s.step().world.ms_elapsed,
{
    if s.step_error().is_none() {
        let num_clients = s.clients.len();
        let due = s.at_next_event();
        lemma_at_next_event_valid(s.world, num_clients);
        assert(s.world.events[0].e_type.subject() < num_clients);
        match s.world.events.first().e_type {
            EventType::NextUpdateCycle(client_id) => {
                let client = s.clients[client_id as int];
                if client.at_buffer_limit() {
                    lemma_stalled_wf(client);
                } else {
                    let peers = others(num_clients, client_id);
                    let target = client.target_cycle() as usize;
                    lemma_others(num_clients, client_id);
                    lemma_notices_sent_valid(due.world, client_id, target, peers, num_clients);
                    let sent = due.world.notices_sent(client_id, target, peers);
                    let tick = UpcomingEvent {
                        event_trigger_time: (due.world.ms_elapsed + UPDATE_CYCLE_FREQ) as usize,
                        e_type: EventType::NextUpdateCycle(client_id),
                    };
                    lemma_schedule_valid(sent.events, tick, due.world.ms_elapsed, num_clients);
                    lemma_advanced_wf(client, num_clients);
                    let after = s.step();
                    assert(after.clients =~= s.clients.update(
                        client_id as int,
                        client.advanced(num_clients),
                    ));
                    assert(after.world.events == schedule(sent.events, tick));
                }
            },
            EventType::MessageArrival(msg) => {
                let client = s.clients[msg.dest_client as int];
                lemma_acknowledged_wf(client, wait_for(msg));
                let after = client.acknowledged(wait_for(msg));
                if client.is_stalled && !after.is_stalled {
                    let tick = UpcomingEvent {
                        event_trigger_time: due.world.ms_elapsed,
                        e_type: EventType::NextUpdateCycle(msg.dest_client),
                    };
                    lemma_schedule_valid(
                        due.world.events,
                        tick,
                        due.world.ms_elapsed,
                        num_clients,
                    );
                }
            },
        }
    }
}

} // verus!
