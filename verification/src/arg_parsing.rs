//! The configuration of a run.

use crate::event::UPDATE_CYCLE_FREQ;
use crate::narration::{decimal, decimal_string, lines_are, ms_string, ms_text};
use vstd::prelude::*;

verus! {

/// How much of its progress a run reports.
#[derive(Clone, Copy, Debug, PartialEq, Eq, Structural)]
pub enum ProgArgLogLevel {
    Trace,
    Debug,
    Info,
    Warn,
    Error,
}

/// What a run is configured with.
#[derive(Clone, Copy, Debug)]
pub struct ProgArgs {
    /// How many cycles a client may run ahead of what it has heard.
    pub l_buf_size: usize,
    /// The mean of the message latency, in milliseconds.
    pub lat_mean: usize,
    /// The standard deviation of the message latency, in milliseconds.
    pub lat_std: usize,
    /// How many events the run processes.
    pub num_events_to_proc: usize,
    pub log_level: ProgArgLogLevel,
}

/// The lower-case form of an upper-case letter of the basic Latin
/// alphabet; any other character unchanged.
pub open spec fn ascii_lower(c: char) -> char {
    if 'A' <= c && c <= 'Z' {
        ((c as u32) + 32) as char
    } else {
        c
    }
}

/// `text` with each character in its `ascii_lower` form.
pub open spec fn lowered(text: Seq<char>) -> Seq<char> {
    Seq::new(text.len(), |i: int| ascii_lower(text[i]))
}

/// The level that `name` names. Upper and lower case are not told apart.
pub open spec fn level_named(name: Seq<char>) -> Option<ProgArgLogLevel> {
    if lowered(name) == "trace"@ {
        Some(ProgArgLogLevel::Trace)
    } else if lowered(name) == "debug"@ {
        Some(ProgArgLogLevel::Debug)
    } else if lowered(name) == "info"@ {
        Some(ProgArgLogLevel::Info)
    } else if lowered(name) == "warn"@ {
        Some(ProgArgLogLevel::Warn)
    } else if lowered(name) == "error"@ {
        Some(ProgArgLogLevel::Error)
    } else {
        None
    }
}

/// Whether `text`, in lower case, is `lower`.
fn is_lowered_to(text: &str, lower: &str) -> (same: bool)
    ensures
        same == (lowered(text@) == lower@),
{
    let n: usize = text.unicode_len();
    if lower.unicode_len() != n {
        return false;
    }
    let mut i: usize = 0;
    while i < n
        invariant
            i <= n == text@.len() == lower@.len(),
            forall|j: int| 0 <= j < i ==> ascii_lower(text@[j]) == lower@[j],
        decreases n - i,
    {
        let c: char = text.get_char(i);
        let l: char = lower.get_char(i);
        let matches: bool = if 'A' <= c && c <= 'Z' {
            (c as u32) + 32 == (l as u32)
        } else {
            c == l
        };
        if !matches {
            assert(lowered(text@)[i as int] != lower@[i as int]);
            return false;
        }
        i = i + 1;
    }
    assert(lowered(text@) =~= lower@);
    true
}

impl ProgArgLogLevel {
    /// The name of the level, in lower case.
    pub open spec fn name_text(self) -> Seq<char> {
        match self {
            ProgArgLogLevel::Trace => "trace"@,
            ProgArgLogLevel::Debug => "debug"@,
            ProgArgLogLevel::Info => "info"@,
            ProgArgLogLevel::Warn => "warn"@,
            ProgArgLogLevel::Error => "error"@,
        }
    }

    /// The name of the level, as a logger's filter takes it.
    pub fn name(&self) -> (name: &'static str)
        ensures
            name@ == self.name_text(),
    {
        match self {
            ProgArgLogLevel::Trace => "trace",
            ProgArgLogLevel::Debug => "debug",
            ProgArgLogLevel::Info => "info",
            ProgArgLogLevel::Warn => "warn",
            ProgArgLogLevel::Error => "error",
        }
    }

    /// The level that `name` names, if it names one. Upper and lower case
    /// are not told apart.
    pub fn from_name(name: &str) -> (level: Option<ProgArgLogLevel>)
        ensures
            level == level_named(name@),
    {
        if is_lowered_to(name, "trace") {
            Some(ProgArgLogLevel::Trace)
        } else if is_lowered_to(name, "debug") {
            Some(ProgArgLogLevel::Debug)
        } else if is_lowered_to(name, "info") {
            Some(ProgArgLogLevel::Info)
        } else if is_lowered_to(name, "warn") {
            Some(ProgArgLogLevel::Warn)
        } else if is_lowered_to(name, "error") {
            Some(ProgArgLogLevel::Error)
        } else {
            None
        }
    }
}

/// What a run says of its configuration before it starts, line by line: the
/// depth of the lockstep buffer in frames and as a duration, the mean and
/// the standard deviation of the latency, and the number of events.
pub open spec fn prog_args_info(p_args: ProgArgs) -> Seq<Seq<char>> {
    seq![
        "Lockstep buffer size: "@ + decimal(p_args.l_buf_size as nat) + " frames ("@ + ms_text(
            (p_args.l_buf_size * UPDATE_CYCLE_FREQ) as nat,
        ) + ")"@,
        "Latency mean: "@ + ms_text(p_args.lat_mean as nat),
        "Latency std: "@ + ms_text(p_args.lat_std as nat),
        "Simulation length: "@ + decimal(p_args.num_events_to_proc as nat) + " events"@,
    ]
}

/// Writes what a run says of its configuration, one string for each line.
pub fn print_info_about_prog_args(p_args: &ProgArgs) -> (lines: Vec<String>)
    ensures
        lines_are(lines@, prog_args_info(*p_args)),
{
    let lockstep_buffer_ms: u128 = p_args.l_buf_size as u128 * UPDATE_CYCLE_FREQ as u128;

    let mut buffer_line = String::from_str("Lockstep buffer size: ");
    buffer_line.append(decimal_string(p_args.l_buf_size as u128).as_str());
    buffer_line.append(" frames (");
    buffer_line.append(ms_string(lockstep_buffer_ms).as_str());
    buffer_line.append(")");

    let mut mean_line = String::from_str("Latency mean: ");
    mean_line.append(ms_string(p_args.lat_mean as u128).as_str());

    let mut std_line = String::from_str("Latency std: ");
    std_line.append(ms_string(p_args.lat_std as u128).as_str());

    let mut length_line = String::from_str("Simulation length: ");
    length_line.append(decimal_string(p_args.num_events_to_proc as u128).as_str());
    length_line.append(" events");

    let mut lines: Vec<String> = Vec::new();
    lines.push(buffer_line);
    lines.push(mean_line);
    lines.push(std_line);
    lines.push(length_line);
    lines
}

} // verus!
