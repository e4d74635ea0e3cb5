//! The words in which a run tells what happened.
//!
//! Nothing here prints. Each function returns the text, and the contract
//! says letter for letter what it is.

use crate::event::{EventType, UpcomingEvent};
use crate::model::{StepOutcome, StepReport};
use vstd::prelude::*;

verus! {

/// The type of simulated times and durations, in milliseconds.
pub type SimTimeType = usize;

/// The character of the decimal digit `d`.
pub open spec fn digit(d: nat) -> char {
    if d == 0 {
        '0'
    } else if d == 1 {
        '1'
    } else if d == 2 {
        '2'
    } else if d == 3 {
        '3'
    } else if d == 4 {
        '4'
    } else if d == 5 {
        '5'
    } else if d == 6 {
        '6'
    } else if d == 7 {
        '7'
    } else if d == 8 {
        '8'
    } else {
        '9'
    }
}

/// The number `n` in decimal, without leading zeros.
pub open spec fn decimal(n: nat) -> Seq<char>
    decreases n,
{
    if n < 10 {
        seq![digit(n)]
    } else {
        decimal(n / 10).push(digit(n % 10))
    }
}

fn digit_str(d: u128) -> (s: &'static str)
    requires
        d < 10,
    ensures
        s@ == seq![digit(d as nat)],
{
    proof {
        reveal_strlit("0");
        reveal_strlit("1");
        reveal_strlit("2");
        reveal_strlit("3");
        reveal_strlit("4");
        reveal_strlit("5");
        reveal_strlit("6");
        reveal_strlit("7");
        reveal_strlit("8");
        reveal_strlit("9");
    }
    let s = if d == 0 {
        "0"
    } else if d == 1 {
        "1"
    } else if d == 2 {
        "2"
    } else if d == 3 {
        "3"
    } else if d == 4 {
        "4"
    } else if d == 5 {
        "5"
    } else if d == 6 {
        "6"
    } else if d == 7 {
        "7"
    } else if d == 8 {
        "8"
    } else {
        "9"
    };
    assert(s@ =~= seq![digit(d as nat)]);
    s
}

/// Writes `n` in decimal.
pub fn decimal_string(n: u128) -> (s: String)
    ensures
        s@ == decimal(n as nat),
    decreases n,
{
    if n < 10 {
        String::from_str(digit_str(n))
    } else {
        let mut s = decimal_string(n / 10);
        s.append(digit_str(n % 10));
        s
    }
}

/// A duration of `ms` milliseconds, as it is shown.
pub open spec fn ms_text(ms: nat) -> Seq<char> {
    decimal(ms) + "ms"@
}

/// Writes a duration for display: the number of milliseconds, then `ms`.
pub fn get_ms_as_str(ms: SimTimeType) -> (s: String)
    ensures
        s@ == ms_text(ms as nat),
{
    ms_string(ms as u128)
}

/// Writes a duration that may be longer than a simulated time can be.
pub fn ms_string(ms: u128) -> (s: String)
    ensures
        s@ == ms_text(ms as nat),
{
    let mut s = decimal_string(ms);
    s.append("ms");
    s
}

/// What an event of the type `e_type` is called.
pub open spec fn event_text(e_type: EventType) -> Seq<char> {
    match e_type {
        EventType::NextUpdateCycle(client_id) => "Update cycle for client "@ + decimal(
            client_id as nat,
        ),
        EventType::MessageArrival(msg) => "Message arrived for client "@ + decimal(
            msg.dest_client as nat,
        ) + " from client "@ + decimal(msg.sending_client as nat) + " for update cycle "@
            + decimal(msg.target_update_cycle as nat),
    }
}

impl EventType {
    /// Names the event.
    pub fn describe(&self) -> (s: String)
        ensures
            s@ == event_text(*self),
    {
        match self {
            EventType::NextUpdateCycle(client_id) => {
                let mut s = String::from_str("Update cycle for client ");
                s.append(decimal_string(*client_id as u128).as_str());
                s
            },
            EventType::MessageArrival(msg) => {
                let mut s = String::from_str("Message arrived for client ");
                s.append(decimal_string(msg.dest_client as u128).as_str());
                s.append(" from client ");
                s.append(decimal_string(msg.sending_client as u128).as_str());
                s.append(" for update cycle ");
                s.append(decimal_string(msg.target_update_cycle as u128).as_str());
                s
            },
        }
    }
}

/// The line that opens the account of a step: which event was delivered,
/// and when.
pub open spec fn event_line(event: UpcomingEvent) -> Seq<char> {
    "Event: "@ + event_text(event.e_type) + " (sim time: "@ + decimal(
        event.event_trigger_time as nat,
    ) + "ms)"@
}

/// The line that says which cycle the ticking client had completed.
pub open spec fn completed_line(client_id: nat, cycle: nat) -> Seq<char> {
    "Update cycle "@ + decimal(cycle) + " just completed for client "@ + decimal(client_id)
}

/// The line that says that a client has stalled.
pub open spec fn stalled_line(client_id: nat) -> Seq<char> {
    "Client "@ + decimal(client_id) + " has stalled!"@
}

/// The line that says that a client has gathered every notice for `cycle`.
pub open spec fn gathered_line(client_id: nat, cycle: nat) -> Seq<char> {
    "Client "@ + decimal(client_id) + " just received all other pending client info for frame "@
        + decimal(cycle) + "."@
}

/// The account of a step, line by line. It opens with the event. A tick
/// then says which cycle its client had completed and, if so, that the
/// client has stalled. An arrival says of each cycle from `first_cleared`
/// up to `next_awaited`, exclusive and in ascending order, that it has been
/// gathered.
pub open spec fn narration(report: StepReport) -> Seq<Seq<char>> {
    let client_id = report.event.e_type.subject() as nat;
    match report.outcome {
        StepOutcome::Stalled { cycle } => seq![
            event_line(report.event),
            completed_line(client_id, cycle as nat),
            stalled_line(client_id),
        ],
        StepOutcome::Advanced { completed_cycle, target_cycle } => seq![
            event_line(report.event),
            completed_line(client_id, completed_cycle as nat),
        ],
        StepOutcome::Received { first_cleared, next_awaited, resumed } => seq![
            event_line(report.event),
        ] + Seq::new(
            if first_cleared <= next_awaited {
                (next_awaited - first_cleared) as nat
            } else {
                0
            },
            |k: int| gathered_line(client_id, (first_cleared + k) as nat),
        ),
    }
}

fn event_line_string(event: &UpcomingEvent) -> (s: String)
    ensures
        s@ == event_line(*event),
{
    let mut s = String::from_str("Event: ");
    s.append(event.e_type.describe().as_str());
    s.append(" (sim time: ");
    s.append(decimal_string(event.event_trigger_time as u128).as_str());
    s.append("ms)");
    s
}

fn completed_line_string(client_id: usize, cycle: usize) -> (s: String)
    ensures
        s@ == completed_line(client_id as nat, cycle as nat),
{
    let mut s = String::from_str("Update cycle ");
    s.append(decimal_string(cycle as u128).as_str());
    s.append(" just completed for client ");
    s.append(decimal_string(client_id as u128).as_str());
    s
}

fn stalled_line_string(client_id: usize) -> (s: String)
    ensures
        s@ == stalled_line(client_id as nat),
{
    let mut s = String::from_str("Client ");
    s.append(decimal_string(client_id as u128).as_str());
    s.append(" has stalled!");
    s
}

fn gathered_line_string(client_id: usize, cycle: usize) -> (s: String)
    ensures
        s@ == gathered_line(client_id as nat, cycle as nat),
{
    let mut s = String::from_str("Client ");
    s.append(decimal_string(client_id as u128).as_str());
    s.append(" just received all other pending client info for frame ");
    s.append(decimal_string(cycle as u128).as_str());
    s.append(".");
    s
}

/// Holds when `lines` are the strings `texts`, in order.
pub open spec fn lines_are(lines: Seq<String>, texts: Seq<Seq<char>>) -> bool {
    &&& lines.len() == texts.len()
    &&& forall|i: int| 0 <= i < lines.len() ==> (#[trigger] lines[i])@ == texts[i]
}

impl StepReport {
    /// The account of the step, one string for each line.
    pub fn narration(&self) -> (lines: Vec<String>)
        ensures
            lines_are(lines@, narration(*self)),
    {
        let client_id: usize = match self.event.e_type {
            EventType::NextUpdateCycle(client_id) => client_id,
            EventType::MessageArrival(msg) => msg.dest_client,
        };
        let mut lines: Vec<String> = Vec::new();
        lines.push(event_line_string(&self.event));
        match self.outcome {
            StepOutcome::Stalled { cycle } => {
                lines.push(completed_line_string(client_id, cycle));
                lines.push(stalled_line_string(client_id));
            },
            StepOutcome::Advanced { completed_cycle, target_cycle } => {
                lines.push(completed_line_string(client_id, completed_cycle));
            },
            StepOutcome::Received { first_cleared, next_awaited, resumed } => {
                let mut cycle: usize = first_cleared;
                while cycle < next_awaited
                    invariant
                        first_cleared <= cycle,
                        first_cleared <= next_awaited ==> cycle <= next_awaited,
                        first_cleared > next_awaited ==> cycle == first_cleared,
                        lines@.len() == 1 + (cycle - first_cleared),
                        lines@[0]@ == event_line(self.event),
                        forall|k: int|
                            0 <= k < cycle - first_cleared ==> (#[trigger] lines@[1 + k])@
                                == gathered_line(client_id as nat, (first_cleared + k) as nat),
                    decreases next_awaited - cycle,
                {
                    lines.push(gathered_line_string(client_id, cycle));
                    cycle = cycle + 1;
                }
                proof {
                    let head = seq![event_line(self.event)];
                    let tail = Seq::new(
                        if first_cleared <= next_awaited {
                            (next_awaited - first_cleared) as nat
                        } else {
                            0
                        },
                        |k: int| gathered_line(client_id as nat, (first_cleared + k) as nat),
                    );
                    assert(narration(*self) == head + tail);
                    assert(head.len() == 1);
                    assert forall|i: int| 0 <= i < lines@.len() implies (#[trigger] lines@[i])@ == (
                    head + tail)[i] by {
                        if i > 0 {
                            assert(lines@[1 + (i - 1)]@ == tail[i - 1]);
                        }
                    }
                }
            },
        }
        lines
    }
}

} // verus!
