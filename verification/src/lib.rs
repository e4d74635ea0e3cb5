//! A discrete-event simulator of a lockstep synchronisation protocol.
//!
//! Peers advance through numbered update cycles at a fixed tick rate and tell
//! each other, over a network with latency, which cycles they have reached. A
//! peer may run only a bounded number of cycles ahead of what it has heard
//! from the others; when it reaches that bound it stalls until the missing
//! notices arrive.
//!
//! The simulation is a deterministic transition system over [`SimView`]: the
//! executable functions are proved to compute exactly the transitions that
//! `model` defines, and `laws` proves what holds of every run.

pub mod arg_parsing;
pub mod client;
pub mod error;
pub mod event;
pub mod event_queue;
pub mod latency;
pub mod laws;
pub mod model;
pub mod narration;
pub mod seeding;
pub mod simulation;
pub mod stalls;
pub mod wellformed;

pub use arg_parsing::{print_info_about_prog_args, ProgArgLogLevel, ProgArgs};
pub use client::{
    get_client_ids_that_are_not_ours, Acknowledgement, Client, ClientView, WaitingClientUpdateCycle,
};
pub use error::SimError;
pub use event::{ClientID, EventType, Message, UpcomingEvent, FPS, UPDATE_CYCLE_FREQ};
pub use event_queue::EventQueue;
pub use latency::{delay_of_sample, LatencyState};
pub use model::{SimView, StepOutcome, StepReport, WorldView};
pub use narration::{decimal_string, get_ms_as_str, ms_string, SimTimeType};
pub use simulation::{
    delays_needed_to_seed, init_state, init_state_with_clients, run_sim_until_next_event, SimState,
    NUM_CLIENTS,
};
