//! Runtime primitives of a declarative UI engine: an immutable shared string
//! with a null-terminated view, and a single-threaded timer multiplexer.

pub mod shared_string;
pub mod timers;

pub use shared_string::{InvalidText, SharedString};
pub use timers::{lower_bound, ActiveTimer, Timer, TimerData, TimerList, TimerMode};
