//! The pending events, kept in the order in which they will be delivered.

use crate::event::UpcomingEvent;
use std::collections::VecDeque;
use vstd::prelude::*;

verus! {

/// Holds when no event of `s` comes due before an event that precedes it.
pub open spec fn sorted_by_time(s: Seq<UpcomingEvent>) -> bool {
    forall|i: int, j: int|
        0 <= i <= j < s.len() ==> s[i].event_trigger_time <= s[j].event_trigger_time
}

/// Where an event due at `t` joins `s`: behind the last event that is due no
/// later than `t`. Events due at the same time thus leave in the order in
/// which they were scheduled.
pub open spec fn insertion_point(s: Seq<UpcomingEvent>, t: usize) -> nat
    decreases s.len(),
{
    if s.len() == 0 {
        0
    } else if s.last().event_trigger_time <= t {
        s.len()
    } else {
        insertion_point(s.drop_last(), t)
    }
}

/// The queue `s` after `event` has been scheduled.
pub open spec fn schedule(s: Seq<UpcomingEvent>, event: UpcomingEvent) -> Seq<UpcomingEvent> {
    s.insert(insertion_point(s, event.event_trigger_time) as int, event)
}

/// `insertion_point(s, t)` splits a sorted `s` into the events due no later
/// than `t` and those due after it.
pub proof fn lemma_insertion_point(s: Seq<UpcomingEvent>, t: usize)
    requires
        sorted_by_time(s),
    ensures
        insertion_point(s, t) <= s.len(),
        forall|k: int| 0 <= k < insertion_point(s, t) ==> s[k].event_trigger_time <= t,
        forall|k: int| insertion_point(s, t) <= k < s.len() ==> s[k].event_trigger_time > t,
    decreases s.len(),
{
    if s.len() > 0 && s.last().event_trigger_time > t {
        let front = s.drop_last();
        assert(sorted_by_time(front)) by {
            assert forall|i: int, j: int| 0 <= i <= j < front.len() implies front[i].event_trigger_time
                <= front[j].event_trigger_time by {
                assert(front[i] == s[i] && front[j] == s[j]);
            }
        }
        lemma_insertion_point(front, t);
        let p = insertion_point(s, t);
        assert forall|k: int| 0 <= k < p implies s[k].event_trigger_time <= t by {
            assert(front[k] == s[k]);
        }
        assert forall|k: int| p <= k < s.len() implies s[k].event_trigger_time > t by {
            if k < front.len() {
                assert(front[k] == s[k]);
            }
        }
    } else if s.len() > 0 {
        assert forall|k: int| 0 <= k < s.len() implies s[k].event_trigger_time <= t by {
            assert(s[k].event_trigger_time <= s[s.len() - 1].event_trigger_time);
        }
    }
}

/// Scheduling keeps a sorted queue sorted, and adds exactly the one event.
pub proof fn lemma_schedule_sorted(s: Seq<UpcomingEvent>, event: UpcomingEvent)
    requires
        sorted_by_time(s),
    ensures
        sorted_by_time(schedule(s, event)),
        schedule(s, event).len() == s.len() + 1,
{
    lemma_insertion_point(s, event.event_trigger_time);
}

/// A time-ordered queue of events. Its view lists the pending events in
/// delivery order: earliest first, and among events due at the same time the
/// one scheduled first.
pub struct EventQueue {
    events: VecDeque<UpcomingEvent>,
}

impl View for EventQueue {
    type V = Seq<UpcomingEvent>;

    closed spec fn view(&self) -> Seq<UpcomingEvent> {
        self.events@
    }
}

impl EventQueue {
    /// The invariant of the queue: its events stand in order of trigger time.
    pub open spec fn wf(&self) -> bool {
        sorted_by_time(self@)
    }

    pub fn new() -> (queue: EventQueue)
        ensures
            queue@ == Seq::<UpcomingEvent>::empty(),
            queue.wf(),
    {
        EventQueue { events: VecDeque::new() }
    }

    pub fn len(&self) -> (n: usize)
        ensures
            n == self@.len(),
    {
        self.events.len()
    }

    pub fn is_empty(&self) -> (empty: bool)
        ensures
            empty == (self@.len() == 0),
    {
        self.events.len() == 0
    }

    /// Schedules `event` behind every pending event that is due no later.
    pub fn push(&mut self, event: UpcomingEvent)
        requires
            old(self).wf(),
        ensures
            final(self)@ == schedule(old(self)@, event),
            final(self).wf(),
    {
        let t: usize = event.event_trigger_time;
        let mut i: usize = self.events.len();
        assert(self.events@.take(i as int) == self.events@);
        while i > 0 && self.events[i - 1].event_trigger_time > t
            invariant
                i <= self.events@.len(),
                insertion_point(self.events@, t) == insertion_point(
                    self.events@.take(i as int),
                    t,
                ),
            decreases i,
        {
            assert(self.events@.take(i as int).drop_last() == self.events@.take(i - 1));
            i = i - 1;
        }
        proof {
            lemma_schedule_sorted(self.events@, event);
        }
        self.events.insert(i, event);
    }

    /// The event that `pop_earliest` would deliver, without removing it.
    pub fn peek_earliest(&self) -> (next: Option<UpcomingEvent>)
        ensures
            next == (if self@.len() == 0 {
                None
            } else {
                Some(self@.first())
            }),
    {
        if self.events.len() == 0 {
            None
        } else {
            Some(self.events[0])
        }
    }

    /// Removes and returns the earliest event, or `None` when nothing is
    /// pending.
    pub fn pop_earliest(&mut self) -> (next: Option<UpcomingEvent>)
        requires
            old(self).wf(),
        ensures
            next == (if old(self)@.len() == 0 {
                None
            } else {
                Some(old(self)@.first())
            }),
            final(self)@ == (if old(self)@.len() == 0 {
                old(self)@
            } else {
                old(self)@.drop_first()
            }),
            final(self).wf(),
    {
        self.events.pop_front()
    }
}

} // verus!
