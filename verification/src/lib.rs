//! A small event loop: timed callbacks and callbacks on file descriptors.

pub mod first;
pub mod laws;
pub mod messages;
pub mod readiness;
pub mod registry;
pub mod runs;
pub mod spevents;
pub mod steps;
pub mod time;
