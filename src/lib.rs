//! A tick-addressed test engine for a simulation server driven over a text
//! command channel: scheduling, command building, tolerant state matching,
//! retry polling, tick-advance verification and chat breakpoints.

pub mod actions;
pub mod breakpoint;
pub mod executor;
pub mod matching;
pub mod poller;
pub mod recorder;
pub mod test_spec;
pub mod text;
pub mod tick;
