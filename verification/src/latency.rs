//! The latency model: the delays that messages will suffer, in the order in
//! which they will be handed out.
//!
//! The model draws nothing itself. Whoever runs the simulation samples the
//! configured distribution and supplies the raw samples; the model clamps
//! them to non-negative delays and hands them out first in, first out, one
//! per message.

use std::collections::VecDeque;
use vstd::prelude::*;

verus! {

/// The delay that a raw sample stands for: a negative sample is a delay of
/// zero, any other sample is itself.
pub open spec fn clamp_delay(raw: isize) -> usize {
    if raw < 0 {
        0
    } else {
        raw as usize
    }
}

/// No delay is negative: a sample below zero stands for a delay of zero,
/// and every other sample for a delay of its own length.
pub proof fn law_no_negative_delay(raw: isize)
    ensures
        0 <= clamp_delay(raw),
        raw < 0 ==> clamp_delay(raw) == 0,
        raw >= 0 ==> clamp_delay(raw) == raw,
{
}

/// The delays that `samples` stand for, in the same order.
pub open spec fn clamp_delays(samples: Seq<isize>) -> Seq<usize> {
    Seq::new(samples.len(), |i: int| clamp_delay(samples[i]))
}

/// The delay that the raw sample `raw` stands for.
pub fn delay_of_sample(raw: isize) -> (delay: usize)
    ensures
        delay == clamp_delay(raw),
{
    if raw < 0 {
        0
    } else {
        raw as usize
    }
}

/// The queue of delays that have been supplied and not yet handed out. Its
/// view lists them oldest first.
pub struct LatencyState {
    delays: VecDeque<usize>,
}

impl View for LatencyState {
    type V = Seq<usize>;

    closed spec fn view(&self) -> Seq<usize> {
        self.delays@
    }
}

impl LatencyState {
    pub fn new() -> (ls: LatencyState)
        ensures
            ls@ == Seq::<usize>::empty(),
    {
        LatencyState { delays: VecDeque::new() }
    }

    /// Takes in one raw sample of the latency distribution.
    pub fn supply_sample(&mut self, raw: isize)
        ensures
            final(self)@ == old(self)@.push(clamp_delay(raw)),
    {
        self.delays.push_back(delay_of_sample(raw));
    }

    /// How many delays are waiting to be handed out.
    pub fn available(&self) -> (n: usize)
        ensures
            n == self@.len(),
    {
        self.delays.len()
    }

    /// The delay that the `k`-th message from now will get, if it has been
    /// supplied already.
    pub fn peek(&self, k: usize) -> (delay: Option<usize>)
        ensures
            delay == (if k < self@.len() {
                Some(self@[k as int])
            } else {
                None
            }),
    {
        if k < self.delays.len() {
            Some(self.delays[k])
        } else {
            None
        }
    }

    /// Hands out the delay of the next message, or `None` when every
    /// supplied delay has been used.
    pub fn gen_delay_of_msg(&mut self) -> (delay: Option<usize>)
        ensures
            delay == (if old(self)@.len() == 0 {
                None
            } else {
                Some(old(self)@.first())
            }),
            final(self)@ == (if old(self)@.len() == 0 {
                old(self)@
            } else {
                old(self)@.drop_first()
            }),
    {
        self.delays.pop_front()
    }
}

} // verus!
