//! How stalls, resumptions and pending ticks keep step with each other.
//!
//! A client that runs has exactly one tick pending; a stalled client has
//! none. So every stall uses up a tick, every resumption schedules one, and
//! a client can stall again only after an arrival has resumed it. The bound
//! on the number of stalls in a run follows from that.

use crate::client::{lemma_others, others, ClientView};
use crate::error::SimError;
use crate::event::{ClientID, EventType, Message, UpcomingEvent, UPDATE_CYCLE_FREQ};
use crate::event_queue::{insertion_point, lemma_insertion_point, schedule, sorted_by_time};
use crate::laws::{lemma_after_wf, lemma_with_delays_wf};
use crate::model::{
    all_stalled, delays_to_seed, events_valid, fresh_clients, peers_of_each, wait_for, SimView,
    StepOutcome, StepReport, WorldView,
};
use crate::seeding::{
    lemma_initial_wf, lemma_seeded, lemma_seeded_client_wf, lemma_seeded_round, lemma_ticking,
    seedable,
};
use crate::wellformed::{lemma_at_next_event_valid, lemma_notices_sent_valid, lemma_step_wf};
use vstd::prelude::*;

verus! {

/// Holds when `event` is a tick of `client_id`.
pub open spec fn is_tick_of(event: UpcomingEvent, client_id: ClientID) -> bool {
    event.e_type == EventType::NextUpdateCycle(client_id)
}

/// How many ticks of `client_id` are among `events`.
pub open spec fn pending_ticks(events: Seq<UpcomingEvent>, client_id: ClientID) -> nat
    decreases events.len(),
{
    if events.len() == 0 {
        0
    } else {
        pending_ticks(events.drop_last(), client_id) + (if is_tick_of(events.last(), client_id) {
            1nat
        } else {
            0nat
        })
    }
}

/// How many of `clients` are stalled.
pub open spec fn stalled_clients(clients: Seq<ClientView>) -> nat
    decreases clients.len(),
{
    if clients.len() == 0 {
        0
    } else {
        stalled_clients(clients.drop_last()) + (if clients.last().is_stalled {
            1nat
        } else {
            0nat
        })
    }
}

/// Holds when every client that runs has exactly one tick pending and every
/// stalled client has none.
pub open spec fn ticks_match_stalls(s: SimView) -> bool {
    forall|c: int|
        0 <= c < s.clients.len() ==> pending_ticks(s.world.events, c as usize) == (if (
        #[trigger] s.clients[c]).is_stalled {
            0nat
        } else {
            1nat
        })
}

/// The ticks among two runs of events, one behind the other, are those
/// among the first and those among the second.
proof fn lemma_pending_ticks_concat(
    a: Seq<UpcomingEvent>,
    b: Seq<UpcomingEvent>,
    client_id: ClientID,
)
    ensures
        pending_ticks(a + b, client_id) == pending_ticks(a, client_id) + pending_ticks(
            b,
            client_id,
        ),
    decreases b.len(),
{
    if b.len() == 0 {
        assert(a + b == a);
    } else {
        assert((a + b).drop_last() == a + b.drop_last());
        lemma_pending_ticks_concat(a, b.drop_last(), client_id);
    }
}

/// A single event holds one tick of a client if it is one, and none
/// otherwise.
proof fn lemma_pending_ticks_one(event: UpcomingEvent, client_id: ClientID)
    ensures
        pending_ticks(seq![event], client_id) == (if is_tick_of(event, client_id) {
            1nat
        } else {
            0nat
        }),
{
    assert(seq![event].drop_last() == Seq::<UpcomingEvent>::empty());
    reveal_with_fuel(pending_ticks, 2);
}

/// Taking the first event out takes out one tick of its client, if it is a
/// tick, and no other.
proof fn lemma_pending_ticks_drop_first(events: Seq<UpcomingEvent>, client_id: ClientID)
    requires
        events.len() > 0,
    ensures
        pending_ticks(events, client_id) == pending_ticks(events.drop_first(), client_id) + (
        if is_tick_of(events.first(), client_id) {
            1nat
        } else {
            0nat
        }),
{
    assert(events == seq![events.first()] + events.drop_first());
    lemma_pending_ticks_concat(seq![events.first()], events.drop_first(), client_id);
    lemma_pending_ticks_one(events.first(), client_id);
}

/// Scheduling an event adds one tick of its client, if it is a tick, and no
/// other.
proof fn lemma_pending_ticks_schedule(
    events: Seq<UpcomingEvent>,
    event: UpcomingEvent,
    client_id: ClientID,
)
    requires
        sorted_by_time(events),
    ensures
        pending_ticks(schedule(events, event), client_id) == pending_ticks(events, client_id) + (
        if is_tick_of(event, client_id) {
            1nat
        } else {
            0nat
        }),
{
    lemma_insertion_point(events, event.event_trigger_time);
    let p = insertion_point(events, event.event_trigger_time) as int;
    let front = events.subrange(0, p);
    let back = events.subrange(p, events.len() as int);
    assert(events == front + back);
    assert(schedule(events, event) == (front + seq![event]) + back);
    lemma_pending_ticks_concat(front, back, client_id);
    lemma_pending_ticks_concat(front + seq![event], back, client_id);
    lemma_pending_ticks_concat(front, seq![event], client_id);
    lemma_pending_ticks_one(event, client_id);
}

/// Sending notices schedules no tick.
proof fn lemma_notices_keep_ticks(
    world: WorldView,
    sender: ClientID,
    cycle: usize,
    peers: Seq<ClientID>,
    num_clients: nat,
    client_id: ClientID,
)
    requires
        sorted_by_time(world.events),
        events_valid(world.events, world.ms_elapsed, num_clients),
        world.can_send(peers.len()),
        forall|k: int| 0 <= k < peers.len() ==> (#[trigger] peers[k]) < num_clients,
    ensures
        pending_ticks(world.notices_sent(sender, cycle, peers).events, client_id) == pending_ticks(
            world.events,
            client_id,
        ),
    decreases peers.len(),
{
    if peers.len() > 0 {
        let front = peers.drop_last();
        assert forall|k: int| 0 <= k < front.len() implies (#[trigger] front[k]) < num_clients by {
            assert(front[k] == peers[k]);
        }
        lemma_notices_keep_ticks(world, sender, cycle, front, num_clients, client_id);
        lemma_notices_sent_valid(world, sender, cycle, front, num_clients);
        let before = world.notices_sent(sender, cycle, front);
        let arrival = UpcomingEvent {
            event_trigger_time: (before.ms_elapsed + before.delays.first()) as usize,
            e_type: EventType::MessageArrival(
                Message {
                    target_update_cycle: cycle,
                    sending_client: sender,
                    dest_client: peers.last(),
                },
            ),
        };
        lemma_pending_ticks_schedule(before.events, arrival, client_id);
    }
}

/// Replacing one client changes the number of stalled clients by what the
/// replacement changes.
proof fn lemma_stalled_clients_update(clients: Seq<ClientView>, i: int, client: ClientView)
    requires
        0 <= i < clients.len(),
    ensures
        stalled_clients(clients.update(i, client)) + (if clients[i].is_stalled {
            1nat
        } else {
            0nat
        }) == stalled_clients(clients) + (if client.is_stalled {
            1nat
        } else {
            0nat
        }),
    decreases clients.len(),
{
    if i == clients.len() - 1 {
        assert(clients.update(i, client).drop_last() == clients.drop_last());
    } else {
        assert(clients.update(i, client).drop_last() == clients.drop_last().update(i, client));
        lemma_stalled_clients_update(clients.drop_last(), i, client);
    }
}

/// No more clients are stalled than there are, and if all are, every one
/// of them is.
proof fn lemma_stalled_clients_bound(clients: Seq<ClientView>)
    ensures
        stalled_clients(clients) <= clients.len(),
        stalled_clients(clients) == clients.len() <==> all_stalled(clients),
        stalled_clients(clients) == 0 <==> forall|i: int|
            0 <= i < clients.len() ==> !(#[trigger] clients[i]).is_stalled,
    decreases clients.len(),
{
    if clients.len() > 0 {
        let front = clients.drop_last();
        lemma_stalled_clients_bound(front);
        if all_stalled(clients) {
            assert forall|i: int| 0 <= i < front.len() implies (#[trigger] front[i]).is_stalled by {
                assert(front[i] == clients[i]);
            }
            assert(clients[clients.len() - 1].is_stalled);
        }
        if stalled_clients(clients) == clients.len() {
            assert forall|i: int| 0 <= i < clients.len() implies (#[trigger] clients[i]).is_stalled by {
                if i < front.len() {
                    assert(front[i] == clients[i]);
                }
            }
        }
        if stalled_clients(clients) == 0 {
            assert forall|i: int| 0 <= i < clients.len() implies !(#[trigger] clients[i]).is_stalled by {
                if i < front.len() {
                    assert(front[i] == clients[i]);
                }
            }
        }
        if forall|i: int| 0 <= i < clients.len() ==> !(#[trigger] clients[i]).is_stalled {
            assert forall|i: int| 0 <= i < front.len() implies !(#[trigger] front[i]).is_stalled by {
                assert(front[i] == clients[i]);
            }
            assert(!clients[clients.len() - 1].is_stalled);
        }
    }
}

/// How a step changes the number of stalled clients: a tick that stalls its
/// client adds one, an arrival that resumes its destination takes one away,
/// and nothing else changes it.
pub open spec fn stalled_after(stalled_before: int, outcome: StepOutcome) -> int {
    match outcome {
        StepOutcome::Stalled { .. } => stalled_before + 1,
        StepOutcome::Advanced { .. } => stalled_before,
        StepOutcome::Received { resumed, .. } => if resumed {
            stalled_before - 1
        } else {
            stalled_before
        },
    }
}

/// A step that succeeds keeps the pending ticks in step with the stalled
/// clients, and changes the number of stalled clients as `stalled_after`
/// says.
pub proof fn lemma_step_keeps_ticks(s: SimView)
    requires
        s.wf(),
        ticks_match_stalls(s),
        s.step_result() is Ok,
    ensures
        ticks_match_stalls(s.step()),
        stalled_clients(s.step().clients) == stalled_after(
            stalled_clients(s.clients) as int,
            s.step_result().unwrap().outcome,
        ),
{
    let num_clients = s.clients.len();
    let due = s.at_next_event();
    let after = s.step();
    lemma_step_wf(s);
    lemma_at_next_event_valid(s.world, num_clients);
    assert(s.world.events[0].e_type.subject() < num_clients);
    match s.world.events.first().e_type {
        EventType::NextUpdateCycle(client_id) => {
            let client = s.clients[client_id as int];
            lemma_pending_ticks_drop_first(s.world.events, client_id);
            assert(!client.is_stalled);
            if client.at_buffer_limit() {
                lemma_stalled_clients_update(s.clients, client_id as int, client.stalled());
                assert forall|c: int| 0 <= c < after.clients.len() implies pending_ticks(
                    after.world.events,
                    c as usize,
                ) == (if (#[trigger] after.clients[c]).is_stalled {
                    0nat
                } else {
                    1nat
                }) by {
                    lemma_pending_ticks_drop_first(s.world.events, c as usize);
                    assert(s.clients[c].is_stalled || !s.clients[c].is_stalled);
                }
            } else {
                let peers = others(num_clients, client_id);
                let target = client.target_cycle() as usize;
                lemma_others(num_clients, client_id);
                lemma_notices_sent_valid(due.world, client_id, target, peers, num_clients);
                let sent = due.world.notices_sent(client_id, target, peers);
                let tick = UpcomingEvent {
                    event_trigger_time: (due.world.ms_elapsed + UPDATE_CYCLE_FREQ) as usize,
                    e_type: EventType::NextUpdateCycle(client_id),
                };
                assert(after.world.events == schedule(sent.events, tick));
                assert(after.clients =~= s.clients.update(
                    client_id as int,
                    client.advanced(num_clients),
                ));
                lemma_stalled_clients_update(
                    s.clients,
                    client_id as int,
                    client.advanced(num_clients),
                );
                assert forall|c: int| 0 <= c < after.clients.len() implies pending_ticks(
                    after.world.events,
                    c as usize,
                ) == (if (#[trigger] after.clients[c]).is_stalled {
                    0nat
                } else {
                    1nat
                }) by {
                    lemma_pending_ticks_drop_first(s.world.events, c as usize);
                    lemma_notices_keep_ticks(
                        due.world,
                        client_id,
                        target,
                        peers,
                        num_clients,
                        c as usize,
                    );
                    lemma_pending_ticks_schedule(sent.events, tick, c as usize);
                    assert(s.clients[c].is_stalled || !s.clients[c].is_stalled);
                }
            }
        },
        EventType::MessageArrival(msg) => {
            let dest = msg.dest_client;
            let client = s.clients[dest as int];
            let acknowledged = client.acknowledged(wait_for(msg));
            lemma_stalled_clients_update(s.clients, dest as int, acknowledged);
            let tick = UpcomingEvent {
                event_trigger_time: due.world.ms_elapsed,
                e_type: EventType::NextUpdateCycle(dest),
            };
            assert forall|c: int| 0 <= c < after.clients.len() implies pending_ticks(
                after.world.events,
                c as usize,
            ) == (if (#[trigger] after.clients[c]).is_stalled {
                0nat
            } else {
                1nat
            }) by {
                lemma_pending_ticks_drop_first(s.world.events, c as usize);
                lemma_pending_ticks_schedule(due.world.events, tick, c as usize);
                assert(s.clients[c].is_stalled || !s.clients[c].is_stalled);
            }
        },
    }
}

/// A simulation in which the pending ticks are in step with the stalled
/// clients never finds its queue empty while a client still runs: when no
/// event is pending, every client is stalled.
pub proof fn law_empty_queue_is_deadlock(s: SimView)
    requires
        ticks_match_stalls(s),
    ensures
        s.step_error() != Some(SimError::EmptyQueue),
{
    if s.world.events.len() == 0 {
        assert forall|i: int| 0 <= i < s.clients.len() implies (#[trigger] s.clients[i]).is_stalled by {
            assert(pending_ticks(s.world.events, i as usize) == 0);
        }
    }
}

/// A round of announcements schedules no tick.
proof fn lemma_seeded_round_keeps_ticks(
    s: SimView,
    cycle: usize,
    senders: nat,
    client_id: ClientID,
)
    requires
        seedable(s),
        senders <= s.clients.len(),
        senders * peers_of_each(s.clients.len()) <= s.world.delays.len(),
    ensures
        pending_ticks(s.seeded_round(cycle, senders).world.events, client_id) == pending_ticks(
            s.world.events,
            client_id,
        ),
    decreases senders,
{
    if senders > 0 {
        let done = (senders - 1) as nat;
        let per_sender = peers_of_each(s.clients.len());
        assert(senders * per_sender == done * per_sender + per_sender) by (nonlinear_arith)
            requires
                done == senders - 1,
        ;
        lemma_seeded_round_keeps_ticks(s, cycle, done, client_id);
        lemma_seeded_round(s, cycle, done);
        let before = s.seeded_round(cycle, done);
        lemma_others(before.clients.len(), done as usize);
        lemma_notices_keep_ticks(
            before.world,
            done as usize,
            cycle,
            others(before.clients.len(), done as usize),
            before.clients.len(),
            client_id,
        );
    }
}

/// Seeding any number of cycles schedules no tick.
proof fn lemma_seeded_keeps_ticks(s: SimView, cycles: nat, client_id: ClientID)
    requires
        seedable(s),
        delays_to_seed(s.clients.len(), cycles) <= s.world.delays.len(),
    ensures
        pending_ticks(s.seeded(cycles).world.events, client_id) == pending_ticks(
            s.world.events,
            client_id,
        ),
    decreases cycles,
{
    if cycles > 0 {
        let done = (cycles - 1) as nat;
        let per_cycle = s.clients.len() * peers_of_each(s.clients.len());
        assert(cycles * per_cycle == done * per_cycle + per_cycle) by (nonlinear_arith)
            requires
                done == cycles - 1,
        ;
        lemma_seeded_keeps_ticks(s, done, client_id);
        lemma_seeded(s, done);
        lemma_seeded_round_keeps_ticks(s.seeded(done), done as usize, s.clients.len(), client_id);
    }
}

/// Scheduling the first ticks schedules one tick for each client.
proof fn lemma_ticking_ticks(
    world: WorldView,
    ticking: nat,
    num_clients: nat,
    client_id: ClientID,
)
    requires
        sorted_by_time(world.events),
        events_valid(world.events, world.ms_elapsed, num_clients),
        ticking <= num_clients <= usize::MAX,
    ensures
        pending_ticks(world.ticking(ticking).events, client_id) == pending_ticks(
            world.events,
            client_id,
        ) + (if client_id < ticking {
            1nat
        } else {
            0nat
        }),
    decreases ticking,
{
    if ticking > 0 {
        let done = (ticking - 1) as nat;
        lemma_ticking_ticks(world, done, num_clients, client_id);
        lemma_ticking(world, done, num_clients);
        lemma_pending_ticks_schedule(
            world.ticking(done).events,
            UpcomingEvent {
                event_trigger_time: world.ms_elapsed,
                e_type: EventType::NextUpdateCycle(done as usize),
            },
            client_id,
        );
    }
}

/// In the state in which a run starts no client is stalled and every
/// client has exactly one tick pending.
pub proof fn lemma_initial_ticks(num_clients: nat, l_buf_size: usize, delays: Seq<usize>)
    requires
        num_clients <= usize::MAX,
        delays_to_seed(num_clients, l_buf_size as nat) <= delays.len(),
    ensures
        ticks_match_stalls(SimView::initial(num_clients, l_buf_size, delays)),
        stalled_clients(SimView::initial(num_clients, l_buf_size, delays).clients) == 0,
{
    let fresh = SimView {
        world: WorldView { ms_elapsed: 0, events: Seq::empty(), delays },
        clients: fresh_clients(num_clients, l_buf_size),
    };
    let seeded = fresh.seeded(l_buf_size as nat);
    let initial = SimView::initial(num_clients, l_buf_size, delays);
    lemma_initial_wf(num_clients, l_buf_size, delays);
    lemma_seeded(fresh, l_buf_size as nat);
    assert forall|c: int| 0 <= c < initial.clients.len() implies !(
    #[trigger] initial.clients[c]).is_stalled && pending_ticks(initial.world.events, c as usize)
        == 1 by {
        lemma_seeded_client_wf(fresh.clients[c], l_buf_size as nat, num_clients);
        lemma_seeded_keeps_ticks(fresh, l_buf_size as nat, c as usize);
        lemma_ticking_ticks(seeded.world, num_clients, num_clients, c as usize);
    }
    lemma_stalled_clients_bound(initial.clients);
}

/// Whatever a run does, the pending ticks stay in step with the stalled
/// clients.
pub proof fn lemma_after_keeps_ticks(s: SimView, supplies: Seq<Seq<usize>>, steps: nat)
    requires
        s.wf(),
        ticks_match_stalls(s),
        steps <= supplies.len(),
    ensures
        s.after(supplies, steps).wf(),
        ticks_match_stalls(s.after(supplies, steps)),
    decreases steps,
{
    if steps > 0 {
        let done = (steps - 1) as nat;
        lemma_after_keeps_ticks(s, supplies, done);
        let before = s.after(supplies, done).with_delays(supplies[done as int]);
        lemma_with_delays_wf(s.after(supplies, done), supplies[done as int]);
        lemma_step_wf(before);
        if before.step_result() is Ok {
            lemma_step_keeps_ticks(before);
        }
    }
}

/// No step of a run that starts afresh finds the queue empty while a client
/// still runs: a run can end in a deadlock, never in an empty queue
/// otherwise.
pub proof fn law_no_empty_queue_fault(
    num_clients: nat,
    l_buf_size: usize,
    delays: Seq<usize>,
    supplies: Seq<Seq<usize>>,
    k: nat,
)
    requires
        num_clients <= usize::MAX,
        delays_to_seed(num_clients, l_buf_size as nat) <= delays.len(),
        k < supplies.len(),
    ensures
        SimView::initial(num_clients, l_buf_size, delays).result_of(supplies, k) != Err::<
            StepReport,
            SimError,
        >(SimError::EmptyQueue),
{
    let initial = SimView::initial(num_clients, l_buf_size, delays);
    lemma_initial_wf(num_clients, l_buf_size, delays);
    lemma_initial_ticks(num_clients, l_buf_size, delays);
    lemma_after_keeps_ticks(initial, supplies, k);
    law_empty_queue_is_deadlock(initial.after(supplies, k).with_delays(supplies[k as int]));
}

/// How many of the first `steps` steps of a run stalled a client.
pub open spec fn stalls_in(s: SimView, supplies: Seq<Seq<usize>>, steps: nat) -> nat
    decreases steps,
{
    if steps == 0 {
        0
    } else {
        stalls_in(s, supplies, (steps - 1) as nat) + (match s.result_of(
            supplies,
            (steps - 1) as nat,
        ) {
            Ok(StepReport { outcome: StepOutcome::Stalled { .. }, .. }) => 1nat,
            _ => 0nat,
        })
    }
}

/// How many of the first `steps` steps of a run resumed a stalled client.
pub open spec fn resumptions_in(s: SimView, supplies: Seq<Seq<usize>>, steps: nat) -> nat
    decreases steps,
{
    if steps == 0 {
        0
    } else {
        resumptions_in(s, supplies, (steps - 1) as nat) + (match s.result_of(
            supplies,
            (steps - 1) as nat,
        ) {
            Ok(StepReport { outcome: StepOutcome::Received { resumed: true, .. }, .. }) => 1nat,
            _ => 0nat,
        })
    }
}

/// Over a run, no step both stalls and resumes, and the clients stalled at
/// the end are those stalled at the start, plus one for every stall, less
/// one for every resumption.
pub proof fn law_stalls_and_resumptions(s: SimView, supplies: Seq<Seq<usize>>, steps: nat)
    requires
        s.wf(),
        ticks_match_stalls(s),
        s.runs(supplies, steps),
    ensures
        s.after(supplies, steps).wf(),
        ticks_match_stalls(s.after(supplies, steps)),
        stalls_in(s, supplies, steps) + resumptions_in(s, supplies, steps) <= steps,
        stalled_clients(s.after(supplies, steps).clients) + resumptions_in(s, supplies, steps)
            == stalled_clients(s.clients) + stalls_in(s, supplies, steps),
    decreases steps,
{
    if steps > 0 {
        let done = (steps - 1) as nat;
        assert(s.runs(supplies, done)) by {
            assert forall|k: nat| k < done implies (#[trigger] s.result_of(supplies, k)) is Ok by {
                assert(k < steps);
            }
        }
        law_stalls_and_resumptions(s, supplies, done);
        let before = s.after(supplies, done).with_delays(supplies[done as int]);
        lemma_with_delays_wf(s.after(supplies, done), supplies[done as int]);
        assert(s.result_of(supplies, done) is Ok);
        lemma_step_keeps_ticks(before);
        lemma_step_wf(before);
    }
}

/// Stalls are bounded by the length of the run: twice the number of stalls
/// is at most the number of steps, plus the clients stalled at the end, less
/// those stalled at the start.
pub proof fn law_stall_bound(s: SimView, supplies: Seq<Seq<usize>>, steps: nat)
    requires
        s.wf(),
        ticks_match_stalls(s),
        s.runs(supplies, steps),
    ensures
        2 * stalls_in(s, supplies, steps) + stalled_clients(s.clients) <= steps + stalled_clients(
            s.after(supplies, steps).clients,
        ),
{
    law_stalls_and_resumptions(s, supplies, steps);
}

/// Two clients, started afresh, stall at most `steps / 2 + 1` times in a
/// run of `steps` steps, and at most half of `steps`, rounded up, unless
/// `steps` is even and the run ends with both clients stalled.
pub proof fn law_stalls_of_two_clients(
    l_buf_size: usize,
    delays: Seq<usize>,
    supplies: Seq<Seq<usize>>,
    steps: nat,
)
    requires
        delays_to_seed(2, l_buf_size as nat) <= delays.len(),
        SimView::initial(2, l_buf_size, delays).runs(supplies, steps),
    ensures
        stalls_in(SimView::initial(2, l_buf_size, delays), supplies, steps) <= steps / 2 + 1,
        steps % 2 == 1 || !all_stalled(
            SimView::initial(2, l_buf_size, delays).after(supplies, steps).clients,
        ) ==> stalls_in(SimView::initial(2, l_buf_size, delays), supplies, steps) <= (steps + 1)
            / 2,
{
    let initial = SimView::initial(2, l_buf_size, delays);
    lemma_initial_wf(2, l_buf_size, delays);
    lemma_initial_ticks(2, l_buf_size, delays);
    law_stalls_and_resumptions(initial, supplies, steps);
    lemma_after_wf(initial, supplies, steps);
    lemma_stalled_clients_bound(initial.after(supplies, steps).clients);
}

} // verus!
