//! One participant: how far it has run, and what it still waits to hear.

use crate::error::SimError;
use crate::event::ClientID;
use vstd::multiset::Multiset;
use vstd::prelude::*;
use vstd::seq_lib::lemma_multiset_commutative;
use vstd::seq_lib::to_multiset_contains;
use vstd::seq_lib::to_multiset_len;
use vstd::seq_lib::to_multiset_remove;
use vstd::seq_lib::to_multiset_update;

verus! {

/// An entry of a wait-set: the notice of `from_client` for `update_cycle` has
/// not arrived yet.
#[derive(Clone, Copy, Debug, PartialEq, Eq, Structural)]
pub struct WaitingClientUpdateCycle {
    pub from_client: ClientID,
    pub update_cycle: usize,
}

/// The peers of client `ours` among `num_clients` clients, in ascending
/// order: every id below `num_clients` but `ours`.
pub open spec fn others(num_clients: nat, ours: ClientID) -> Seq<ClientID> {
    Seq::new(
        if ours < num_clients {
            (num_clients - 1) as nat
        } else {
            num_clients
        },
        |k: int|
            if k < ours {
                k as usize
            } else {
                (k + 1) as usize
            },
    )
}

/// The peers of a client are clients, and none of them is the client
/// itself.
pub proof fn lemma_others(num_clients: nat, ours: ClientID)
    requires
        num_clients <= usize::MAX,
    ensures
        others(num_clients, ours).len() == (if ours < num_clients {
            num_clients - 1
        } else {
            num_clients as int
        }),
        forall|k: int|
            0 <= k < others(num_clients, ours).len() ==> {
                &&& (#[trigger] others(num_clients, ours)[k]) < num_clients
                &&& others(num_clients, ours)[k] != ours
            },
{
}

/// One wait-set entry for `cycle` from each of `peers`, in their order.
pub open spec fn waits_on(peers: Seq<ClientID>, cycle: usize) -> Seq<WaitingClientUpdateCycle> {
    Seq::new(
        peers.len(),
        |k: int| WaitingClientUpdateCycle { from_client: peers[k], update_cycle: cycle },
    )
}

/// Holds when `waits` has an entry for `cycle`, from whichever peer.
pub open spec fn has_cycle(waits: Multiset<WaitingClientUpdateCycle>, cycle: usize) -> bool {
    exists|w: WaitingClientUpdateCycle| #[trigger] waits.count(w) > 0 && w.update_cycle == cycle
}

/// Says that `result` is the cycle that a client awaits next, once an arrival
/// has left it with the wait-set `waits` and it awaited `next` before.
///
/// While entries remain, the client moves on to the lowest cycle from `next`
/// on that still has one. A wait-set that the arrival has emptied has nothing
/// outstanding for `next` either, so that cycle counts as gathered too: the
/// client moves on by exactly one cycle, and no further, since nothing is
/// left for it to stop at.
pub open spec fn is_awaited_after(
    waits: Multiset<WaitingClientUpdateCycle>,
    next: usize,
    result: usize,
) -> bool {
    if waits.len() == 0 {
        result == next + 1
    } else {
        &&& next <= result
        &&& has_cycle(waits, result)
        &&& forall|c: usize| next <= c < result ==> !has_cycle(waits, c)
    }
}

/// The cycle that `is_awaited_after` describes.
pub open spec fn awaited_after(waits: Multiset<WaitingClientUpdateCycle>, next: usize) -> usize {
    choose|result: usize| is_awaited_after(waits, next, result)
}

/// At most one cycle meets `is_awaited_after`, so whichever does is
/// `awaited_after`.
pub proof fn lemma_awaited_after_unique(
    waits: Multiset<WaitingClientUpdateCycle>,
    next: usize,
    result: usize,
)
    requires
        is_awaited_after(waits, next, result),
    ensures
        awaited_after(waits, next) == result,
{
    let chosen = awaited_after(waits, next);
    assert(is_awaited_after(waits, next, chosen));
    if waits.len() != 0 {
        if chosen < result {
            assert(!has_cycle(waits, chosen));
        } else if result < chosen {
            assert(!has_cycle(waits, result));
        }
    }
}

/// A client as the contracts see it.
#[verifier::ext_equal]
pub struct ClientView {
    pub client_id: ClientID,
    /// The highest cycle that the client has completed.
    pub curr_update_cycle: usize,
    /// How many cycles the client may run ahead of what it has heard.
    pub lockstep_buffer_size: usize,
    /// The notices that the client still waits for.
    pub waiting_on: Multiset<WaitingClientUpdateCycle>,
    /// The lowest cycle for which the client may still lack a notice.
    pub next_awaited: usize,
    pub is_stalled: bool,
}

impl ClientView {
    /// The invariant of a wait-set: the client waits for no notice for a
    /// cycle before the one it awaits.
    pub open spec fn no_wait_below_awaited(self) -> bool {
        forall|w: WaitingClientUpdateCycle| #[trigger]
            self.waiting_on.count(w) > 0 ==> self.next_awaited <= w.update_cycle
    }

    /// The invariant of a client inside a simulation: it has not run past
    /// the cycle it awaits, and each notice it waits for is for a cycle from
    /// the awaited one up to its own cycle plus the buffer depth.
    pub open spec fn wf(self) -> bool {
        &&& self.curr_update_cycle <= self.next_awaited
        &&& self.next_awaited <= self.curr_update_cycle + self.lockstep_buffer_size + 1
        &&& self.no_wait_below_awaited()
        &&& forall|w: WaitingClientUpdateCycle| #[trigger]
            self.waiting_on.count(w) > 0 ==> w.update_cycle <= self.curr_update_cycle
                + self.lockstep_buffer_size
    }

    /// The client has used up its buffer: it has completed every cycle
    /// before the one it awaits and must not start another.
    pub open spec fn at_buffer_limit(self) -> bool {
        self.curr_update_cycle == self.next_awaited
    }

    /// The client after it has found itself at the buffer limit.
    pub open spec fn stalled(self) -> ClientView {
        ClientView { is_stalled: true, ..self }
    }

    /// The client after it has started to wait for the notice of every peer
    /// for `cycle`.
    pub open spec fn waiting_also_on(self, cycle: usize, num_clients: nat) -> ClientView {
        ClientView {
            waiting_on: self.waiting_on.add(
                waits_on(others(num_clients, self.client_id), cycle).to_multiset(),
            ),
            ..self
        }
    }

    /// The client after it has started to wait for the notice of every peer
    /// for each cycle below `cycles`, cycle by cycle.
    pub open spec fn seeded(self, cycles: nat, num_clients: nat) -> ClientView
        decreases cycles,
    {
        if cycles == 0 {
            self
        } else {
            self.seeded((cycles - 1) as nat, num_clients).waiting_also_on(
                (cycles - 1) as usize,
                num_clients,
            )
        }
    }

    /// The cycle for which a client that completes its next cycle announces
    /// itself and starts to wait.
    pub open spec fn target_cycle(self) -> int {
        self.curr_update_cycle + 1 + self.lockstep_buffer_size
    }

    /// The client after it has completed one more cycle and started to wait
    /// for its peers' notices for the target cycle.
    pub open spec fn advanced(self, num_clients: nat) -> ClientView {
        ClientView {
            curr_update_cycle: (self.curr_update_cycle + 1) as usize,
            ..self
        }.waiting_also_on(self.target_cycle() as usize, num_clients)
    }

    /// Why the notice `w` cannot be taken in, if it cannot: the client does
    /// not wait for it, or the cycle after the awaited one cannot be counted.
    pub open spec fn acknowledge_error(self, w: WaitingClientUpdateCycle) -> Option<SimError> {
        if self.waiting_on.count(w) == 0 {
            Some(SimError::ProtocolViolation)
        } else if self.waiting_on.len() == 1 && self.next_awaited == usize::MAX {
            Some(SimError::Overflow)
        } else {
            None
        }
    }

    /// The client after the notice `w` has arrived: the entry is gone, the
    /// awaited cycle has moved on as `is_awaited_after` says, and a stalled
    /// client whose awaited cycle moved is stalled no longer.
    pub open spec fn acknowledged(self, w: WaitingClientUpdateCycle) -> ClientView {
        let remaining = self.waiting_on.remove(w);
        let next = awaited_after(remaining, self.next_awaited);
        ClientView {
            waiting_on: remaining,
            next_awaited: next,
            is_stalled: self.is_stalled && next == self.next_awaited,
            ..self
        }
    }
}

/// What taking in one notice did to a client.
#[derive(Clone, Copy, Debug, PartialEq, Eq, Structural)]
pub struct Acknowledgement {
    /// The cycle that the client awaited before.
    pub first_cleared: usize,
    /// The cycle that it awaits now. Every cycle from `first_cleared` up to
    /// this one, exclusive, has been gathered in full.
    pub next_awaited: usize,
    /// The client was stalled and may run again.
    pub resumed: bool,
}

/// One participant of the simulation.
pub struct Client {
    client_id: ClientID,
    curr_update_cycle: usize,
    lockstep_buffer_size: usize,
    update_cycles_waiting_on: Vec<WaitingClientUpdateCycle>,
    next_update_cycle_that_we_are_waiting_on: usize,
    is_stalled: bool,
}

impl View for Client {
    type V = ClientView;

    closed spec fn view(&self) -> ClientView {
        ClientView {
            client_id: self.client_id,
            curr_update_cycle: self.curr_update_cycle,
            lockstep_buffer_size: self.lockstep_buffer_size,
            waiting_on: self.update_cycles_waiting_on@.to_multiset(),
            next_awaited: self.next_update_cycle_that_we_are_waiting_on,
            is_stalled: self.is_stalled,
        }
    }
}

/// Removing position `i` by moving the last entry into its place removes
/// one occurrence of the entry at `i` and nothing else.
proof fn lemma_swap_remove_to_multiset(s: Seq<WaitingClientUpdateCycle>, i: int)
    requires
        0 <= i < s.len(),
    ensures
        s.update(i, s.last()).drop_last().to_multiset() =~= s.to_multiset().remove(s[i]),
{
    broadcast use vstd::multiset::group_multiset_axioms;

    let moved = s.update(i, s.last());
    to_multiset_update(s, i, s.last());
    to_multiset_remove(moved, moved.len() - 1);
    to_multiset_contains(s, s.last());
    assert(s.contains(s.last())) by {
        assert(s[s.len() - 1] == s.last());
    }
    assert(moved.drop_last() =~= moved.remove(moved.len() - 1));
}

/// The ids of all clients but `our_client_id`, in ascending order.
pub fn get_client_ids_that_are_not_ours(num_clients: usize, our_client_id: ClientID) -> (ids: Vec<
    ClientID,
>)
    ensures
        ids@ == others(num_clients as nat, our_client_id),
{
    let mut ids: Vec<ClientID> = Vec::new();
    let mut id: usize = 0;
    while id < num_clients
        invariant
            id <= num_clients,
            ids@ == others(id as nat, our_client_id),
        decreases num_clients - id,
    {
        if id != our_client_id {
            ids.push(id);
        }
        id = id + 1;
    }
    ids
}

impl Client {
    /// A client that has completed no cycle, waits for nothing and runs.
    pub fn new(client_id: ClientID, l_buf_size: usize) -> (client: Client)
        ensures
            client@ == (ClientView {
                client_id,
                curr_update_cycle: 0,
                lockstep_buffer_size: l_buf_size,
                waiting_on: Multiset::empty(),
                next_awaited: 0,
                is_stalled: false,
            }),
    {
        let client = Client {
            client_id,
            curr_update_cycle: 0,
            lockstep_buffer_size: l_buf_size,
            update_cycles_waiting_on: Vec::new(),
            next_update_cycle_that_we_are_waiting_on: 0,
            is_stalled: false,
        };
        proof {
            to_multiset_len(client.update_cycles_waiting_on@);
            vstd::multiset::lemma_multiset_empty_len(client@.waiting_on);
        }
        client
    }

    pub fn client_id(&self) -> (id: ClientID)
        ensures
            id == self@.client_id,
    {
        self.client_id
    }

    pub fn curr_update_cycle(&self) -> (cycle: usize)
        ensures
            cycle == self@.curr_update_cycle,
    {
        self.curr_update_cycle
    }

    pub fn lockstep_buffer_size(&self) -> (depth: usize)
        ensures
            depth == self@.lockstep_buffer_size,
    {
        self.lockstep_buffer_size
    }

    pub fn next_update_cycle_that_we_are_waiting_on(&self) -> (cycle: usize)
        ensures
            cycle == self@.next_awaited,
    {
        self.next_update_cycle_that_we_are_waiting_on
    }

    pub fn is_stalled(&self) -> (stalled: bool)
        ensures
            stalled == self@.is_stalled,
    {
        self.is_stalled
    }

    /// How many notices the client waits for.
    pub fn num_waiting_on(&self) -> (n: usize)
        ensures
            n == self@.waiting_on.len(),
    {
        proof {
            to_multiset_len(self.update_cycles_waiting_on@);
        }
        self.update_cycles_waiting_on.len()
    }

    /// Whether the client waits for the notice of `from_client` for
    /// `update_cycle`.
    pub fn is_waiting_on(&self, from_client: ClientID, update_cycle: usize) -> (waiting: bool)
        ensures
            waiting == (self@.waiting_on.count(WaitingClientUpdateCycle { from_client, update_cycle })
                > 0),
    {
        self.position_of(from_client, update_cycle) < self.update_cycles_waiting_on.len()
    }

    /// Whether the client waits for a notice for `cycle` from any peer.
    pub fn is_waiting_on_cycle(&self, cycle: usize) -> (waiting: bool)
        ensures
            waiting == has_cycle(self@.waiting_on, cycle),
    {
        let mut i: usize = 0;
        while i < self.update_cycles_waiting_on.len()
            invariant
                i <= self.update_cycles_waiting_on@.len(),
                forall|j: int| 0 <= j < i ==> self.update_cycles_waiting_on@[j].update_cycle != cycle,
            decreases self.update_cycles_waiting_on@.len() - i,
        {
            if self.update_cycles_waiting_on[i].update_cycle == cycle {
                proof {
                    let w = self.update_cycles_waiting_on@[i as int];
                    to_multiset_contains(self.update_cycles_waiting_on@, w);
                    assert(self.update_cycles_waiting_on@.contains(w));
                }
                return true;
            }
            i = i + 1;
        }
        proof {
            assert forall|w: WaitingClientUpdateCycle| #[trigger]
                self@.waiting_on.count(w) > 0 implies w.update_cycle != cycle by {
                to_multiset_contains(self.update_cycles_waiting_on@, w);
            }
        }
        false
    }

    /// The lowest cycle for which the client waits for a notice.
    fn lowest_cycle_waited_on(&self) -> (lowest: usize)
        requires
            self.update_cycles_waiting_on@.len() > 0,
        ensures
            has_cycle(self@.waiting_on, lowest),
            forall|c: usize| c < lowest ==> !has_cycle(self@.waiting_on, c),
    {
        let mut lowest: usize = self.update_cycles_waiting_on[0].update_cycle;
        let mut at: usize = 0;
        let mut i: usize = 1;
        while i < self.update_cycles_waiting_on.len()
            invariant
                0 <= at < i <= self.update_cycles_waiting_on@.len(),
                lowest == self.update_cycles_waiting_on@[at as int].update_cycle,
                forall|j: int| 0 <= j < i ==> lowest <= self.update_cycles_waiting_on@[j].update_cycle,
            decreases self.update_cycles_waiting_on@.len() - i,
        {
            if self.update_cycles_waiting_on[i].update_cycle < lowest {
                lowest = self.update_cycles_waiting_on[i].update_cycle;
                at = i;
            }
            i = i + 1;
        }
        proof {
            let w = self.update_cycles_waiting_on@[at as int];
            to_multiset_contains(self.update_cycles_waiting_on@, w);
            assert(self.update_cycles_waiting_on@.contains(w));
            assert forall|c: usize| c < lowest implies !has_cycle(self@.waiting_on, c) by {
                if has_cycle(self@.waiting_on, c) {
                    let v = choose|v: WaitingClientUpdateCycle| #[trigger]
                        self@.waiting_on.count(v) > 0 && v.update_cycle == c;
                    to_multiset_contains(self.update_cycles_waiting_on@, v);
                    let j = choose|j: int|
                        0 <= j < self.update_cycles_waiting_on@.len()
                            && self.update_cycles_waiting_on@[j] == v;
                    assert(lowest <= self.update_cycles_waiting_on@[j].update_cycle);
                }
            }
        }
        lowest
    }

    /// The first position at which the wait-set holds the given entry, or
    /// its length if it holds it nowhere.
    fn position_of(&self, from_client: ClientID, update_cycle: usize) -> (i: usize)
        ensures
            i <= self.update_cycles_waiting_on@.len(),
            i < self.update_cycles_waiting_on@.len() ==> self.update_cycles_waiting_on@[i as int]
                == (WaitingClientUpdateCycle { from_client, update_cycle }),
            (i < self.update_cycles_waiting_on@.len()) == (self@.waiting_on.count(
                WaitingClientUpdateCycle { from_client, update_cycle },
            ) > 0),
    {
        let ghost w = WaitingClientUpdateCycle { from_client, update_cycle };
        proof {
            to_multiset_contains(self.update_cycles_waiting_on@, w);
        }
        let mut i: usize = 0;
        while i < self.update_cycles_waiting_on.len()
            invariant
                i <= self.update_cycles_waiting_on@.len(),
                forall|j: int| 0 <= j < i ==> self.update_cycles_waiting_on@[j] != w,
                w == (WaitingClientUpdateCycle { from_client, update_cycle }),
            decreases self.update_cycles_waiting_on@.len() - i,
        {
            let entry = &self.update_cycles_waiting_on[i];
            if entry.from_client == from_client && entry.update_cycle == update_cycle {
                proof {
                    to_multiset_contains(self.update_cycles_waiting_on@, w);
                    assert(self.update_cycles_waiting_on@[i as int] == w);
                    assert(self.update_cycles_waiting_on@.contains(w));
                }
                return i;
            }
            i = i + 1;
        }
        i
    }

    /// Starts to wait for the notice of every other client for
    /// `update_cycle`.
    pub fn add_cycle_to_waiting_on(&mut self, update_cycle: usize, num_clients: usize)
        ensures
            final(self)@ == old(self)@.waiting_also_on(update_cycle, num_clients as nat),
    {
        let peers = get_client_ids_that_are_not_ours(num_clients, self.client_id);
        let ghost before = self.update_cycles_waiting_on@;
        let ghost added = waits_on(peers@, update_cycle);
        let mut k: usize = 0;
        while k < peers.len()
            invariant
                k <= peers@.len(),
                added == waits_on(peers@, update_cycle),
                self.update_cycles_waiting_on@ == before + added.take(k as int),
                self.client_id == old(self).client_id,
                self.curr_update_cycle == old(self).curr_update_cycle,
                self.lockstep_buffer_size == old(self).lockstep_buffer_size,
                self.next_update_cycle_that_we_are_waiting_on == old(
                    self,
                ).next_update_cycle_that_we_are_waiting_on,
                self.is_stalled == old(self).is_stalled,
            decreases peers@.len() - k,
        {
            self.update_cycles_waiting_on.push(
                WaitingClientUpdateCycle { from_client: peers[k], update_cycle },
            );
            assert(added.take(k as int).push(added[k as int]) == added.take(k + 1));
            k = k + 1;
        }
        proof {
            assert(added.take(k as int) == added);
            lemma_multiset_commutative(before, added);
        }
    }

    /// Whether the client has used up its buffer.
    pub fn at_buffer_limit(&self) -> (at_limit: bool)
        ensures
            at_limit == self@.at_buffer_limit(),
    {
        self.curr_update_cycle == self.next_update_cycle_that_we_are_waiting_on
    }

    /// Marks the client as stalled.
    pub fn stall(&mut self)
        ensures
            final(self)@ == old(self)@.stalled(),
    {
        self.is_stalled = true;
    }

    /// Completes one more cycle, and starts to wait for the notice of every
    /// other client for the target cycle.
    pub fn advance(&mut self, num_clients: usize)
        requires
            old(self)@.target_cycle() <= usize::MAX,
        ensures
            final(self)@ == old(self)@.advanced(num_clients as nat),
    {
        self.curr_update_cycle = self.curr_update_cycle + 1;
        let target: usize = self.curr_update_cycle + self.lockstep_buffer_size;
        self.add_cycle_to_waiting_on(target, num_clients);
    }

    /// Takes in the notice of `from_client` for `update_cycle`.
    ///
    /// Fails, and changes nothing, when the client does not wait for that
    /// notice, or when the awaited cycle would have to move beyond the
    /// highest number there is. Otherwise the entry leaves the wait-set, the
    /// awaited cycle moves on past every cycle that is now gathered in full,
    /// and a stalled client whose awaited cycle has moved may run again.
    pub fn acknowledge(&mut self, from_client: ClientID, update_cycle: usize) -> (result: Result<
        Acknowledgement,
        SimError,
    >)
        requires
            old(self)@.no_wait_below_awaited(),
        ensures
            match old(self)@.acknowledge_error(WaitingClientUpdateCycle { from_client, update_cycle }) {
                Some(error) => result == Err::<Acknowledgement, SimError>(error) && final(self)@ == old(
                    self,
                )@,
                None => {
                    let after = old(self)@.acknowledged(
                        WaitingClientUpdateCycle { from_client, update_cycle },
                    );
                    &&& final(self)@ == after
                    &&& result == Ok::<Acknowledgement, SimError>(
                        Acknowledgement {
                            first_cleared: old(self)@.next_awaited,
                            next_awaited: after.next_awaited,
                            resumed: old(self)@.is_stalled && !after.is_stalled,
                        },
                    )
                },
            },
    {
        let ghost w = WaitingClientUpdateCycle { from_client, update_cycle };
        let idx = self.position_of(from_client, update_cycle);
        if idx >= self.update_cycles_waiting_on.len() {
            return Err(SimError::ProtocolViolation);
        }
        proof {
            to_multiset_len(self.update_cycles_waiting_on@);
        }
        let first_cleared: usize = self.next_update_cycle_that_we_are_waiting_on;
        if self.update_cycles_waiting_on.len() == 1 && first_cleared == usize::MAX {
            return Err(SimError::Overflow);
        }
        proof {
            lemma_swap_remove_to_multiset(self.update_cycles_waiting_on@, idx as int);
        }
        self.update_cycles_waiting_on.swap_remove(idx);
        let ghost remaining = self.update_cycles_waiting_on@.to_multiset();
        assert(remaining == old(self)@.waiting_on.remove(w));
        proof {
            to_multiset_len(self.update_cycles_waiting_on@);
        }
        if self.update_cycles_waiting_on.len() == 0 {
            self.next_update_cycle_that_we_are_waiting_on = first_cleared + 1;
        } else {
            let lowest: usize = self.lowest_cycle_waited_on();
            proof {
                let v = choose|v: WaitingClientUpdateCycle| #[trigger]
                    remaining.count(v) > 0 && v.update_cycle == lowest;
                assert(old(self)@.waiting_on.count(v) > 0);
            }
            self.next_update_cycle_that_we_are_waiting_on = lowest;
        }
        let next_awaited: usize = self.next_update_cycle_that_we_are_waiting_on;
        proof {
            lemma_awaited_after_unique(remaining, first_cleared, next_awaited);
        }
        let resumed: bool = self.is_stalled && next_awaited != first_cleared;
        if resumed {
            self.is_stalled = false;
        }
        Ok(Acknowledgement { first_cleared, next_awaited, resumed })
    }
}

} // verus!
