//! Layout engine for a twelve-month wall calendar.
//!
//! The crate computes where every day of the window sits on the page,
//! turns calendar records into events, breaks event text into lines and
//! decides what is drawn in which day cell. Drawing itself is left to the
//! caller.

pub mod date;
pub mod events;
pub mod printable;
