//! The ways in which a step of the simulation can fail.

use vstd::prelude::*;

verus! {

/// Why the simulation could not take a step. A step that fails leaves the
/// simulation exactly as it was.
#[derive(Clone, Copy, Debug, PartialEq, Eq, Structural)]
pub enum SimError {
    /// A message arrived whose destination was not waiting for it. The
    /// wait-sets no longer describe the messages in flight, so the run cannot
    /// go on.
    ProtocolViolation,
    /// No event is pending and every client is stalled: nothing can ever
    /// happen again.
    Deadlock,
    /// No event is pending although some client is not stalled.
    EmptyQueue,
    /// A message was to be sent, but the latency model had no delay left for
    /// it.
    MissingLatencySample,
    /// A cycle number or a trigger time would exceed what the machine can
    /// count.
    Overflow,
}

impl SimError {
    /// What the error says of itself.
    pub open spec fn text(self) -> Seq<char> {
        match self {
            SimError::ProtocolViolation => "A message arrived that its destination was not waiting for"@,
            SimError::Deadlock => "Every client is stalled and no event is pending"@,
            SimError::EmptyQueue => "No event is pending although a client is not stalled"@,
            SimError::MissingLatencySample => "The latency model has no delay left for a message"@,
            SimError::Overflow => "A cycle number or a simulated time is too large to be counted"@,
        }
    }

    /// Says in words what went wrong.
    pub fn describe(&self) -> (text: &'static str)
        ensures
            text@ == self.text(),
    {
        match self {
            SimError::ProtocolViolation => "A message arrived that its destination was not waiting for",
            SimError::Deadlock => "Every client is stalled and no event is pending",
            SimError::EmptyQueue => "No event is pending although a client is not stalled",
            SimError::MissingLatencySample => "The latency model has no delay left for a message",
            SimError::Overflow => "A cycle number or a simulated time is too large to be counted",
        }
    }
}

} // verus!
